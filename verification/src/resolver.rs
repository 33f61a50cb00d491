//! Decodes dictionary-encoded profile batches into symbolic stacks.
//!
//! Every table of the dictionary is 0-indexed with index 0 reserved as
//! "absent", so a lookup is valid only for an index strictly between 0 and
//! the table length.  Malformed indices are never an error: they resolve to
//! an "[unknown]" label or the affected location or sample is skipped.
use crate::flamegraph::{names_of, spec_add_stack, spec_sort, FlameGraph, NodeV};
use crate::laws::{lemma_add_stack_wf, lemma_sort_wf};
use crate::text::str_eq;
use vstd::prelude::*;

verus! {

/// One entry of the attribute table: a key into the string table and the
/// attribute's value when that value is a string (other value kinds play no
/// part in stack resolution).
pub struct AttributeEntry {
    pub key_strindex: i32,
    pub string_value: Option<String>,
}

/// One entry of the function table: the function's name in the string table.
pub struct FunctionEntry {
    pub name_strindex: i32,
}

/// One source line of a location; lines beyond the first are inlined calls.
pub struct LineEntry {
    pub function_index: i32,
}

/// One entry of the mapping table: the binary's file name in the string table.
pub struct MappingEntry {
    pub filename_strindex: i32,
}

/// One entry of the location table.
pub struct LocationEntry {
    pub mapping_index: i32,
    pub address: u64,
    pub lines: Vec<LineEntry>,
    pub attribute_indices: Vec<i32>,
}

/// One entry of the stack table: location indices, innermost first.
pub struct StackEntry {
    pub location_indices: Vec<i32>,
}

/// The shared dictionary of one profile batch.
pub struct ProfilesDictionary {
    pub string_table: Vec<String>,
    pub attribute_table: Vec<AttributeEntry>,
    pub function_table: Vec<FunctionEntry>,
    pub location_table: Vec<LocationEntry>,
    pub mapping_table: Vec<MappingEntry>,
    pub stack_table: Vec<StackEntry>,
}

/// One sample: a stack-table index, explicit values, event timestamps and
/// attribute indices.
pub struct Sample {
    pub stack_index: i32,
    pub values: Vec<i64>,
    pub timestamps_unix_nano: Vec<u64>,
    pub attribute_indices: Vec<i32>,
}

/// A table index is usable when it is neither the reserved 0 nor outside
/// the table.
pub open spec fn valid_idx(i: i32, len: int) -> bool {
    0 < i && (i as int) < len
}

/// Sum of a sample's explicit values.
pub open spec fn sum_values(s: Seq<i64>) -> int
    decreases s.len(),
{
    if s.len() == 0 {
        0
    } else {
        s[0] + sum_values(s.drop_first())
    }
}

/// The weight of a sample: the sum of its explicit values floored at 1, or
/// the number of its timestamps, or 1.
pub open spec fn spec_weight(s: Sample) -> int {
    if s.values@.len() > 0 {
        let v = sum_values(s.values@);
        if v >= 1 {
            v
        } else {
            1
        }
    } else if s.timestamps_unix_nano@.len() > 0 {
        s.timestamps_unix_nano@.len() as int
    } else {
        1
    }
}

/// `x` capped at the largest `i64`.
pub open spec fn cap_i64(x: int) -> int {
    if x > i64::MAX as int {
        i64::MAX as int
    } else {
        x
    }
}

/// The weight of a sample, as the aggregation uses it: a sample always
/// counts for at least one unit, and a sum of explicit values never lowers
/// it below 1.
pub fn sample_weight(s: &Sample) -> (r: i64)
    ensures
        r as int == cap_i64(spec_weight(*s)),
        r >= 1,
{
    if s.values.len() > 0 {
        let n = s.values.len();
        let mut acc: i128 = 0;
        let mut i: usize = 0;
        proof {
            assert(s.values@.skip(0) =~= s.values@);
        }
        while i < n
            invariant
                i <= n,
                n == s.values@.len(),
                -0x8000_0000_0000_0000i128 * (i as i128) <= acc,
                acc <= 0x8000_0000_0000_0000i128 * (i as i128),
                sum_values(s.values@) == acc + sum_values(s.values@.skip(i as int)),
            decreases n - i,
        {
            proof {
                assert(s.values@.skip(i as int)[0] == s.values@[i as int]);
                assert(s.values@.skip(i as int).drop_first() =~= s.values@.skip(i as int + 1));
            }
            acc = acc + (s.values[i] as i128);
            i = i + 1;
        }
        proof {
            assert(s.values@.skip(n as int) =~= Seq::<i64>::empty());
        }
        if acc < 1 {
            1
        } else if acc > (i64::MAX as i128) {
            i64::MAX
        } else {
            acc as i64
        }
    } else if s.timestamps_unix_nano.len() > 0 {
        let c = s.timestamps_unix_nano.len();
        if (c as u64) > (i64::MAX as u64) {
            i64::MAX
        } else {
            c as i64
        }
    } else {
        1
    }
}

/// The sixteen-way digit of a hexadecimal expansion.
pub open spec fn hex_char(d: int) -> char {
    if d == 0 {
        '0'
    } else if d == 1 {
        '1'
    } else if d == 2 {
        '2'
    } else if d == 3 {
        '3'
    } else if d == 4 {
        '4'
    } else if d == 5 {
        '5'
    } else if d == 6 {
        '6'
    } else if d == 7 {
        '7'
    } else if d == 8 {
        '8'
    } else if d == 9 {
        '9'
    } else if d == 10 {
        'a'
    } else if d == 11 {
        'b'
    } else if d == 12 {
        'c'
    } else if d == 13 {
        'd'
    } else if d == 14 {
        'e'
    } else {
        'f'
    }
}

/// The last `k` hexadecimal digits of `v`, most significant first.
pub open spec fn hex_digits(v: int, k: nat) -> Seq<char>
    decreases k,
{
    if k == 0 {
        Seq::empty()
    } else {
        hex_digits(v / 16, (k - 1) as nat).push(hex_char(v % 16))
    }
}

pub(crate) fn hex_str(d: u64) -> (r: &'static str)
    requires
        d < 16,
    ensures
        r@ == seq![hex_char(d as int)],
{
    if d == 0 {
        proof {
            reveal_strlit("0");
        }
        "0"
    } else if d == 1 {
        proof {
            reveal_strlit("1");
        }
        "1"
    } else if d == 2 {
        proof {
            reveal_strlit("2");
        }
        "2"
    } else if d == 3 {
        proof {
            reveal_strlit("3");
        }
        "3"
    } else if d == 4 {
        proof {
            reveal_strlit("4");
        }
        "4"
    } else if d == 5 {
        proof {
            reveal_strlit("5");
        }
        "5"
    } else if d == 6 {
        proof {
            reveal_strlit("6");
        }
        "6"
    } else if d == 7 {
        proof {
            reveal_strlit("7");
        }
        "7"
    } else if d == 8 {
        proof {
            reveal_strlit("8");
        }
        "8"
    } else if d == 9 {
        proof {
            reveal_strlit("9");
        }
        "9"
    } else if d == 10 {
        proof {
            reveal_strlit("a");
        }
        "a"
    } else if d == 11 {
        proof {
            reveal_strlit("b");
        }
        "b"
    } else if d == 12 {
        proof {
            reveal_strlit("c");
        }
        "c"
    } else if d == 13 {
        proof {
            reveal_strlit("d");
        }
        "d"
    } else if d == 14 {
        proof {
            reveal_strlit("e");
        }
        "e"
    } else {
        proof {
            reveal_strlit("f");
        }
        "f"
    }
}

/// The label used wherever a dictionary lookup cannot be resolved.
pub open spec fn unknown_label() -> Seq<char> {
    "[unknown]"@
}

fn unknown_string() -> (r: String)
    ensures
        r@ == unknown_label(),
{
    "[unknown]".to_owned()
}

/// The function name of a line: the named entry of the function table, or
/// "[unknown]" when the function index or its name do not resolve.
pub open spec fn spec_function_name(dict: ProfilesDictionary, line: LineEntry) -> Seq<char> {
    if !valid_idx(line.function_index, dict.function_table@.len() as int) {
        unknown_label()
    } else {
        let ni = dict.function_table@[line.function_index as int].name_strindex;
        if 0 <= ni && (ni as int) < dict.string_table@.len() && dict.string_table@[ni as int]@.len()
            > 0 {
            dict.string_table@[ni as int]@
        } else {
            unknown_label()
        }
    }
}

pub fn resolve_function_name(line: &LineEntry, dict: &ProfilesDictionary) -> (r: String)
    ensures
        r@ == spec_function_name(*dict, *line),
{
    let fi = line.function_index;
    if fi <= 0 || (fi as usize) >= dict.function_table.len() {
        return unknown_string();
    }
    let ni = dict.function_table[fi as usize].name_strindex;
    if ni >= 0 && (ni as usize) < dict.string_table.len() && !dict.string_table[ni
        as usize].as_str().is_empty() {
        dict.string_table[ni as usize].clone()
    } else {
        unknown_string()
    }
}

/// The text after the last path separator, the whole text when it has none.
pub open spec fn basename_of(s: Seq<char>) -> Seq<char>
    decreases s.len(),
{
    if s.len() == 0 {
        Seq::empty()
    } else if s.last() == '/' {
        Seq::empty()
    } else {
        basename_of(s.drop_last()).push(s.last())
    }
}

pub proof fn lemma_basename_no_slash(s: Seq<char>)
    requires
        forall|j: int| 0 <= j < s.len() ==> s[j] != '/',
    ensures
        basename_of(s) == s,
    decreases s.len(),
{
    if s.len() > 0 {
        assert forall|j: int| 0 <= j < s.drop_last().len() implies s.drop_last()[j] != '/' by {
            assert(s.drop_last()[j] == s[j]);
        }
        lemma_basename_no_slash(s.drop_last());
        assert(s.drop_last().push(s.last()) =~= s);
    }
}

pub proof fn lemma_basename_at(s: Seq<char>, li: int)
    requires
        0 <= li < s.len(),
        s[li] == '/',
        forall|j: int| li < j < s.len() ==> s[j] != '/',
    ensures
        basename_of(s) == s.subrange(li + 1, s.len() as int),
    decreases s.len(),
{
    if li == s.len() - 1 {
        assert(s.last() == '/');
        assert(s.subrange(li + 1, s.len() as int) =~= Seq::<char>::empty());
    } else {
        assert(s.last() != '/');
        assert(s.drop_last()[li] == s[li]);
        assert forall|j: int| li < j < s.drop_last().len() implies s.drop_last()[j] != '/' by {
            assert(s.drop_last()[j] == s[j]);
        }
        lemma_basename_at(s.drop_last(), li);
        assert(s.drop_last().subrange(li + 1, s.len() - 1).push(s.last()) =~= s.subrange(
            li + 1,
            s.len() as int,
        ));
    }
}

/// The binary base name of a location's mapping: the file name in the
/// string table with everything up to the last path separator removed, or
/// "[unknown]" when the mapping or its file name do not resolve.
pub open spec fn spec_mapping_filename(dict: ProfilesDictionary, loc: LocationEntry) -> Seq<char> {
    if !valid_idx(loc.mapping_index, dict.mapping_table@.len() as int) {
        unknown_label()
    } else {
        let ni = dict.mapping_table@[loc.mapping_index as int].filename_strindex;
        if 0 <= ni && (ni as int) < dict.string_table@.len() && dict.string_table@[ni as int]@.len()
            > 0 {
            basename_of(dict.string_table@[ni as int]@)
        } else {
            unknown_label()
        }
    }
}

pub fn resolve_mapping_filename(loc: &LocationEntry, dict: &ProfilesDictionary) -> (r: String)
    ensures
        r@ == spec_mapping_filename(*dict, *loc),
{
    let mi = loc.mapping_index;
    if mi <= 0 || (mi as usize) >= dict.mapping_table.len() {
        return unknown_string();
    }
    let ni = dict.mapping_table[mi as usize].filename_strindex;
    if ni >= 0 && (ni as usize) < dict.string_table.len() && !dict.string_table[ni
        as usize].as_str().is_empty() {
        let full = dict.string_table[ni as usize].as_str();
        let n = full.unicode_len();
        let mut last_slash: usize = 0;
        let mut has_slash = false;
        let mut i: usize = 0;
        while i < n
            invariant
                i <= n,
                n == full@.len(),
                has_slash ==> last_slash < i && full@[last_slash as int] == '/' && forall|j: int|
                    last_slash < j < i ==> full@[j] != '/',
                !has_slash ==> forall|j: int| 0 <= j < i ==> full@[j] != '/',
            decreases n - i,
        {
            let c = full.get_char(i);
            if c == '/' {
                last_slash = i;
                has_slash = true;
            }
            i = i + 1;
        }
        if has_slash {
            proof {
                lemma_basename_at(full@, last_slash as int);
            }
            let tail = full.substring_char(last_slash + 1, n);
            tail.to_owned()
        } else {
            proof {
                lemma_basename_no_slash(full@);
            }
            full.to_owned()
        }
    } else {
        unknown_string()
    }
}

/// The synthetic frame of a location with no line entries:
/// `<binary-basename>+0x<16-hex-digit address>`.
pub open spec fn spec_unsym_label(dict: ProfilesDictionary, loc: LocationEntry) -> Seq<char> {
    spec_mapping_filename(dict, loc) + "+0x"@ + hex_digits(loc.address as int, 16)
}

pub fn resolve_unsymbolized_label(loc: &LocationEntry, dict: &ProfilesDictionary) -> (r: String)
    ensures
        r@ == spec_unsym_label(*dict, *loc),
{
    let mut s = resolve_mapping_filename(loc, dict);
    s.append("+0x");
    hex_append(&mut s, loc.address, 16);
    proof {
        assert(s@ =~= spec_unsym_label(*dict, *loc));
    }
    s
}

/// A frame label with its optional frame-type tag appended.
pub open spec fn spec_with_tag(label: Seq<char>, tag: Seq<char>) -> Seq<char> {
    if tag.len() == 0 {
        label
    } else {
        label + " ["@ + tag + "]"@
    }
}

/// Appends `" [<tag>]"` to a frame label, or returns the label unchanged
/// for an empty tag.
pub fn format_with_tag(label: &str, tag: &str) -> (r: String)
    ensures
        r@ == spec_with_tag(label@, tag@),
{
    if tag.is_empty() {
        label.to_owned()
    } else {
        let r = label.to_owned().concat(" [").concat(tag).concat("]");
        proof {
            assert(r@ =~= spec_with_tag(label@, tag@));
        }
        r
    }
}

/// Display label of a raw frame-type value; an unrecognized value passes
/// through unchanged.
pub open spec fn map_tag(s: Seq<char>) -> Seq<char> {
    if s == "native"@ {
        "Native"@
    } else if s == "kernel"@ {
        "Kernel"@
    } else if s == "jvm"@ {
        "JVM"@
    } else if s == "cpython"@ {
        "Python"@
    } else if s == "php"@ || s == "phpjit"@ {
        "PHP"@
    } else if s == "ruby"@ {
        "Ruby"@
    } else if s == "perl"@ {
        "Perl"@
    } else if s == "v8js"@ {
        "JS"@
    } else if s == "dotnet"@ {
        ".NET"@
    } else if s == "beam"@ {
        "Beam"@
    } else if s == "go"@ {
        "Go"@
    } else {
        s
    }
}

fn map_tag_exec(s: &str) -> (r: String)
    ensures
        r@ == map_tag(s@),
{
    if str_eq(s, "native") {
        "Native".to_owned()
    } else if str_eq(s, "kernel") {
        "Kernel".to_owned()
    } else if str_eq(s, "jvm") {
        "JVM".to_owned()
    } else if str_eq(s, "cpython") {
        "Python".to_owned()
    } else if str_eq(s, "php") || str_eq(s, "phpjit") {
        "PHP".to_owned()
    } else if str_eq(s, "ruby") {
        "Ruby".to_owned()
    } else if str_eq(s, "perl") {
        "Perl".to_owned()
    } else if str_eq(s, "v8js") {
        "JS".to_owned()
    } else if str_eq(s, "dotnet") {
        ".NET".to_owned()
    } else if str_eq(s, "beam") {
        "Beam".to_owned()
    } else if str_eq(s, "go") {
        "Go".to_owned()
    } else {
        s.to_owned()
    }
}

/// The display tag of the first attribute of the location that carries the
/// key `profile.frame.type` with a string value; empty when there is none.
pub open spec fn frame_type_from(dict: ProfilesDictionary, attrs: Seq<i32>) -> Seq<char>
    decreases attrs.len(),
{
    if attrs.len() == 0 {
        Seq::empty()
    } else {
        let ai = attrs[0];
        if valid_idx(ai, dict.attribute_table@.len() as int) {
            let at = dict.attribute_table@[ai as int];
            let ki = at.key_strindex;
            if 0 <= ki && (ki as int) < dict.string_table@.len() && dict.string_table@[ki as int]@
                == "profile.frame.type"@ {
                match at.string_value {
                    Some(v) => map_tag(v@),
                    None => frame_type_from(dict, attrs.drop_first()),
                }
            } else {
                frame_type_from(dict, attrs.drop_first())
            }
        } else {
            frame_type_from(dict, attrs.drop_first())
        }
    }
}

#[verifier::loop_isolation(false)]
pub fn resolve_frame_type(loc: &LocationEntry, dict: &ProfilesDictionary) -> (r: String)
    ensures
        r@ == frame_type_from(*dict, loc.attribute_indices@),
{
    let n = loc.attribute_indices.len();
    let mut i: usize = 0;
    proof {
        assert(loc.attribute_indices@.skip(0) =~= loc.attribute_indices@);
    }
    while i < n
        invariant
            i <= n,
            frame_type_from(*dict, loc.attribute_indices@) == frame_type_from(
                *dict,
                loc.attribute_indices@.skip(i as int),
            ),
        decreases n - i,
    {
        proof {
            assert(loc.attribute_indices@.skip(i as int)[0] == loc.attribute_indices@[i as int]);
            assert(loc.attribute_indices@.skip(i as int).drop_first() =~= loc.attribute_indices@.skip(
                i as int + 1,
            ));
        }
        let ai = loc.attribute_indices[i];
        if ai > 0 && (ai as usize) < dict.attribute_table.len() {
            let at = &dict.attribute_table[ai as usize];
            let ki = at.key_strindex;
            if ki >= 0 && (ki as usize) < dict.string_table.len() {
                if str_eq(dict.string_table[ki as usize].as_str(), "profile.frame.type") {
                    match &at.string_value {
                        Some(v) => {
                            return map_tag_exec(v.as_str());
                        },
                        None => {
                        },
                    }
                }
            }
        }
        i = i + 1;
    }
    proof {
        assert(loc.attribute_indices@.skip(n as int) =~= Seq::<i32>::empty());
    }
    String::new()
}

/// The thread name of a sample: the first attribute carrying the key
/// `thread.name` with a non-empty string value, else "[unknown]".
pub open spec fn thread_name_from(dict: ProfilesDictionary, attrs: Seq<i32>) -> Seq<char>
    decreases attrs.len(),
{
    if attrs.len() == 0 {
        unknown_label()
    } else {
        let ai = attrs[0];
        if valid_idx(ai, dict.attribute_table@.len() as int) {
            let at = dict.attribute_table@[ai as int];
            let ki = at.key_strindex;
            if 0 <= ki && (ki as int) < dict.string_table@.len() && dict.string_table@[ki as int]@
                == "thread.name"@ {
                match at.string_value {
                    Some(v) => if v@.len() > 0 {
                        v@
                    } else {
                        thread_name_from(dict, attrs.drop_first())
                    },
                    None => thread_name_from(dict, attrs.drop_first()),
                }
            } else {
                thread_name_from(dict, attrs.drop_first())
            }
        } else {
            thread_name_from(dict, attrs.drop_first())
        }
    }
}

#[verifier::loop_isolation(false)]
pub fn resolve_thread_name(sample: &Sample, dict: &ProfilesDictionary) -> (r: String)
    ensures
        r@ == thread_name_from(*dict, sample.attribute_indices@),
{
    let n = sample.attribute_indices.len();
    let mut i: usize = 0;
    proof {
        assert(sample.attribute_indices@.skip(0) =~= sample.attribute_indices@);
    }
    while i < n
        invariant
            i <= n,
            thread_name_from(*dict, sample.attribute_indices@) == thread_name_from(
                *dict,
                sample.attribute_indices@.skip(i as int),
            ),
        decreases n - i,
    {
        proof {
            assert(sample.attribute_indices@.skip(i as int)[0] == sample.attribute_indices@[i
                as int]);
            assert(sample.attribute_indices@.skip(i as int).drop_first()
                =~= sample.attribute_indices@.skip(i as int + 1));
        }
        let ai = sample.attribute_indices[i];
        if ai > 0 && (ai as usize) < dict.attribute_table.len() {
            let at = &dict.attribute_table[ai as usize];
            let ki = at.key_strindex;
            if ki >= 0 && (ki as usize) < dict.string_table.len() {
                if str_eq(dict.string_table[ki as usize].as_str(), "thread.name") {
                    match &at.string_value {
                        Some(v) => {
                            if !v.as_str().is_empty() {
                                return v.clone();
                            }
                        },
                        None => {
                        },
                    }
                }
            }
        }
        i = i + 1;
    }
    proof {
        assert(sample.attribute_indices@.skip(n as int) =~= Seq::<i32>::empty());
    }
    unknown_string()
}

/// Appends the last `k` hexadecimal digits of `v`, most significant first.
fn hex_append(s: &mut String, v: u64, k: usize)
    ensures
        final(s)@ == old(s)@ + hex_digits(v as int, k as nat),
    decreases k,
{
    if k == 0 {
        proof {
            assert(old(s)@ + hex_digits(v as int, 0) =~= old(s)@);
        }
        return ;
    }
    hex_append(s, v / 16, k - 1);
    let d = v % 16;
    s.append(hex_str(d));
    proof {
        assert((v % 16) as int == (v as int) % 16);
        assert((v / 16) as int == (v as int) / 16);
        assert(final(s)@ =~= old(s)@ + hex_digits(v as int, k as nat));
    }
}

/// The " [Inline]" marker of every line after the first of a location.
pub open spec fn inline_suffix(i: int) -> Seq<char> {
    if i > 0 {
        " [Inline]"@
    } else {
        Seq::empty()
    }
}

/// The frames of one location, innermost-first as stored: one synthetic
/// frame when it has no line entries, else one frame per line, each tagged
/// with the location's frame type and the inline marker.
pub open spec fn loc_frames(dict: ProfilesDictionary, loc: LocationEntry) -> Seq<Seq<char>> {
    let tag = frame_type_from(dict, loc.attribute_indices@);
    if loc.lines@.len() == 0 {
        seq![spec_with_tag(spec_unsym_label(dict, loc), tag)]
    } else {
        Seq::new(
            loc.lines@.len(),
            |i: int| spec_with_tag(spec_function_name(dict, loc.lines@[i]), tag) + inline_suffix(i),
        )
    }
}

/// The frames of a stack's locations, in stored order; an unresolvable
/// location index contributes nothing.
pub open spec fn stack_frames(dict: ProfilesDictionary, locs: Seq<i32>) -> Seq<Seq<char>>
    decreases locs.len(),
{
    if locs.len() == 0 {
        Seq::empty()
    } else {
        let head = if valid_idx(locs[0], dict.location_table@.len() as int) {
            loc_frames(dict, dict.location_table@[locs[0] as int])
        } else {
            Seq::empty()
        };
        head + stack_frames(dict, locs.drop_first())
    }
}

/// The symbolic stack of one sample, outermost-caller-first with the thread
/// identity prepended; empty when the stack index does not resolve or no
/// location yields a frame — such a sample is dropped entirely.
pub open spec fn spec_resolve_stack(dict: ProfilesDictionary, s: Sample) -> Seq<Seq<char>> {
    if !valid_idx(s.stack_index, dict.stack_table@.len() as int) {
        Seq::empty()
    } else {
        let fr = stack_frames(dict, dict.stack_table@[s.stack_index as int].location_indices@);
        if fr.len() == 0 {
            Seq::empty()
        } else {
            seq![thread_name_from(dict, s.attribute_indices@)] + fr.reverse()
        }
    }
}

/// Resolves one sample against the batch dictionary.  The result is empty —
/// and the sample must be dropped — when there is no dictionary, the stack
/// index does not resolve, or every location of the stack is unresolvable.
#[verifier::loop_isolation(false)]
pub fn resolve_stack(sample: &Sample, dict: Option<&ProfilesDictionary>) -> (r: Vec<String>)
    ensures
        match dict {
            Some(d) => crate::flamegraph::names_of(r@) == spec_resolve_stack(*d, *sample),
            None => r@.len() == 0,
        },
{
    let dict = match dict {
        Some(d) => d,
        None => {
            return Vec::new();
        },
    };
    let si = sample.stack_index;
    if si <= 0 || (si as usize) >= dict.stack_table.len() {
        return Vec::new();
    }
    let stack = &dict.stack_table[si as usize];
    let ghost locs = stack.location_indices@;
    let mut frames: Vec<String> = Vec::new();
    let n = stack.location_indices.len();
    let mut i: usize = 0;
    proof {
        assert(locs.skip(0) =~= locs);
        assert(crate::flamegraph::names_of(frames@) =~= Seq::<Seq<char>>::empty());
    }
    while i < n
        invariant
            i <= n,
            n == locs.len(),
            locs == dict.stack_table@[si as int].location_indices@,
            stack_frames(*dict, locs) == crate::flamegraph::names_of(frames@) + stack_frames(
                *dict,
                locs.skip(i as int),
            ),
        decreases n - i,
    {
        proof {
            assert(locs.skip(i as int)[0] == locs[i as int]);
            assert(locs.skip(i as int).drop_first() =~= locs.skip(i as int + 1));
        }
        let li = stack.location_indices[i];
        if li > 0 && (li as usize) < dict.location_table.len() {
            let loc = &dict.location_table[li as usize];
            let tag = resolve_frame_type(loc, dict);
            let ghost tagv = tag@;
            let ghost base = crate::flamegraph::names_of(frames@);
            if loc.lines.len() == 0 {
                let label = resolve_unsymbolized_label(loc, dict);
                let f = format_with_tag(label.as_str(), tag.as_str());
                let ghost fv = f@;
                frames.push(f);
                proof {
                    assert(crate::flamegraph::names_of(frames@) =~= base.push(fv));
                    assert(base.push(fv) =~= base + loc_frames(
                        *dict,
                        dict.location_table@[li as int],
                    ));
                }
            } else {
                let m = loc.lines.len();
                let mut j: usize = 0;
                while j < m
                    invariant
                        j <= m,
                        m == loc.lines@.len(),
                        crate::flamegraph::names_of(frames@) == base + Seq::new(
                            j as nat,
                            |k: int|
                                spec_with_tag(
                                    spec_function_name(*dict, loc.lines@[k]),
                                    frame_type_from(*dict, loc.attribute_indices@),
                                ) + inline_suffix(k),
                        ),
                        tagv == frame_type_from(*dict, loc.attribute_indices@),
                        tag@ == tagv,
                    decreases m - j,
                {
                    let name = resolve_function_name(&loc.lines[j], dict);
                    let mut f = format_with_tag(name.as_str(), tag.as_str());
                    if j > 0 {
                        f.append(" [Inline]");
                    }
                    let ghost fv = f@;
                    let ghost prevn = crate::flamegraph::names_of(frames@);
                    frames.push(f);
                    proof {
                        assert(fv =~= spec_with_tag(
                            spec_function_name(*dict, loc.lines@[j as int]),
                            frame_type_from(*dict, loc.attribute_indices@),
                        ) + inline_suffix(j as int));
                        assert(crate::flamegraph::names_of(frames@) =~= prevn.push(fv));
                        assert(prevn.push(fv) =~= base + Seq::new(
                            (j + 1) as nat,
                            |k: int|
                                spec_with_tag(
                                    spec_function_name(*dict, loc.lines@[k]),
                                    frame_type_from(*dict, loc.attribute_indices@),
                                ) + inline_suffix(k),
                        ));
                    }
                    j = j + 1;
                }
                proof {
                    assert(Seq::new(
                        m as nat,
                        |k: int|
                            spec_with_tag(
                                spec_function_name(*dict, loc.lines@[k]),
                                frame_type_from(*dict, loc.attribute_indices@),
                            ) + inline_suffix(k),
                    ) =~= loc_frames(*dict, dict.location_table@[li as int]));
                }
            }
        } else {
            proof {
                assert(crate::flamegraph::names_of(frames@) + Seq::<Seq<char>>::empty()
                    =~= crate::flamegraph::names_of(frames@));
            }
        }
        i = i + 1;
    }
    proof {
        assert(locs.skip(n as int) =~= Seq::<i32>::empty());
        assert(stack_frames(*dict, locs) == crate::flamegraph::names_of(frames@));
    }
    if frames.len() == 0 {
        return Vec::new();
    }
    let ghost fseq = crate::flamegraph::names_of(frames@);
    let ghost tn = thread_name_from(*dict, sample.attribute_indices@);
    let comm = resolve_thread_name(sample, dict);
    let mut result: Vec<String> = Vec::new();
    result.push(comm);
    proof {
        assert(crate::flamegraph::names_of(result@) =~= seq![tn]);
        assert(crate::flamegraph::names_of(result@) + crate::flamegraph::names_of(frames@).reverse()
            =~= seq![tn] + fseq.reverse());
    }
    while frames.len() > 0
        invariant
            crate::flamegraph::names_of(result@) + crate::flamegraph::names_of(frames@).reverse()
                == seq![tn] + fseq.reverse(),
        decreases frames@.len(),
    {
        let ghost pre = frames@;
        let ghost resv = crate::flamegraph::names_of(result@);
        let x = frames.pop().unwrap();
        result.push(x);
        proof {
            let pn = crate::flamegraph::names_of(pre);
            assert(pn.reverse() =~= seq![pn.last()] + crate::flamegraph::names_of(
                pre.drop_last(),
            ).reverse()) by {
                assert forall|k: int| 0 <= k < pn.len() implies pn.reverse()[k] == (seq![pn.last()]
                    + crate::flamegraph::names_of(pre.drop_last()).reverse())[k] by {
                    if k > 0 {
                        assert(crate::flamegraph::names_of(pre.drop_last()).reverse()[k - 1]
                            == crate::flamegraph::names_of(pre.drop_last())[pn.len() - 1 - k]);
                        assert(crate::flamegraph::names_of(pre.drop_last())[pn.len() - 1 - k]
                            == pre.drop_last()[pn.len() - 1 - k]@);
                        assert(pn[pn.len() - 1 - k] == pre[pn.len() - 1 - k]@);
                    }
                }
            }
            assert(crate::flamegraph::names_of(result@) =~= resv.push(pn.last()));
            assert(resv.push(pn.last()) + crate::flamegraph::names_of(frames@).reverse() =~= resv + (
            seq![pn.last()] + crate::flamegraph::names_of(frames@).reverse()));
            assert(crate::flamegraph::names_of(frames@) =~= crate::flamegraph::names_of(
                pre.drop_last(),
            ));
        }
    }
    proof {
        assert(crate::flamegraph::names_of(frames@).reverse() =~= Seq::<Seq<char>>::empty());
        assert(crate::flamegraph::names_of(result@) + Seq::<Seq<char>>::empty()
            =~= crate::flamegraph::names_of(result@));
        assert(crate::flamegraph::names_of(result@) =~= spec_resolve_stack(*dict, *sample));
    }
    result
}

/// One profile of a batch: its samples.
pub struct Profile {
    pub samples: Vec<Sample>,
}

/// One instrumentation scope of a batch: its profiles.
pub struct ScopeProfiles {
    pub profiles: Vec<Profile>,
}

/// One resource of a batch: its scopes.
pub struct ResourceProfiles {
    pub scope_profiles: Vec<ScopeProfiles>,
}

/// One inbound batch: the shared dictionary and the resource-scoped groups
/// of samples.
pub struct ExportProfilesServiceRequest {
    pub dictionary: Option<ProfilesDictionary>,
    pub resource_profiles: Vec<ResourceProfiles>,
}

/// One ingest step: a sample whose stack resolves is inserted with its
/// weight and counted; a sample whose stack is empty, or whose weight
/// cannot be added without exceeding the tree's capacity, changes nothing.
pub open spec fn ingest_sample(st: (NodeV, int), dict: ProfilesDictionary, s: Sample) -> (
    NodeV,
    int,
) {
    let stack = spec_resolve_stack(dict, s);
    if stack.len() == 0 {
        st
    } else {
        let w = cap_i64(spec_weight(s));
        if st.0.total + w > i64::MAX as int {
            st
        } else {
            (
                spec_add_stack(st.0, stack, w),
                if st.1 < u64::MAX as int {
                    st.1 + 1
                } else {
                    st.1
                },
            )
        }
    }
}

pub open spec fn ingest_samples(st: (NodeV, int), dict: ProfilesDictionary, ss: Seq<Sample>) -> (
    NodeV,
    int,
)
    decreases ss.len(),
{
    if ss.len() == 0 {
        st
    } else {
        ingest_samples(ingest_sample(st, dict, ss[0]), dict, ss.drop_first())
    }
}

pub open spec fn ingest_profiles(st: (NodeV, int), dict: ProfilesDictionary, ps: Seq<Profile>) -> (
    NodeV,
    int,
)
    decreases ps.len(),
{
    if ps.len() == 0 {
        st
    } else {
        ingest_profiles(ingest_samples(st, dict, ps[0].samples@), dict, ps.drop_first())
    }
}

pub open spec fn ingest_scopes(
    st: (NodeV, int),
    dict: ProfilesDictionary,
    sc: Seq<ScopeProfiles>,
) -> (NodeV, int)
    decreases sc.len(),
{
    if sc.len() == 0 {
        st
    } else {
        ingest_scopes(ingest_profiles(st, dict, sc[0].profiles@), dict, sc.drop_first())
    }
}

pub open spec fn ingest_resources(
    st: (NodeV, int),
    dict: ProfilesDictionary,
    rs: Seq<ResourceProfiles>,
) -> (NodeV, int)
    decreases rs.len(),
{
    if rs.len() == 0 {
        st
    } else {
        ingest_resources(ingest_scopes(st, dict, rs[0].scope_profiles@), dict, rs.drop_first())
    }
}

/// What one batch turns into: every sample of the request folded into an
/// empty tree, which is then recursively sorted, together with the number
/// of samples that were kept.
pub open spec fn spec_build(req: ExportProfilesServiceRequest) -> (NodeV, int) {
    match req.dictionary {
        Some(d) => {
            let st = ingest_resources(
                (NodeV::empty("all"@), 0int),
                d,
                req.resource_profiles@,
            );
            (spec_sort(st.0), st.1)
        },
        None => (spec_sort(NodeV::empty("all"@)), 0int),
    }
}

/// Aggregates one decoded batch into a fresh, recursively sorted tree and
/// counts the samples that contributed.  Samples that resolve to an empty
/// stack are dropped and not counted.
#[verifier::loop_isolation(false)]
pub fn build_flamegraph(req: &ExportProfilesServiceRequest) -> (r: (FlameGraph, u64))
    ensures
        r.0.root@ == spec_build(*req).0,
        r.1 as int == spec_build(*req).1,
        r.0.root@.wf(),
{
    let mut graph = FlameGraph::new();
    let mut count: u64 = 0;
    let dict = match &req.dictionary {
        Some(d) => d,
        None => {
            proof {
                lemma_sort_wf(graph.root@);
            }
            graph.root.sort_recursive();
            return (graph, 0);
        },
    };
    let ghost st0 = (NodeV::empty("all"@), 0int);
    let nr = req.resource_profiles.len();
    let mut i: usize = 0;
    proof {
        assert(req.resource_profiles@.skip(0) =~= req.resource_profiles@);
    }
    while i < nr
        invariant
            i <= nr,
            graph.root@.wf(),
            0 <= count,
            ingest_resources(st0, *dict, req.resource_profiles@) == ingest_resources(
                (graph.root@, count as int),
                *dict,
                req.resource_profiles@.skip(i as int),
            ),
        decreases nr - i,
    {
        proof {
            assert(req.resource_profiles@.skip(i as int)[0] == req.resource_profiles@[i as int]);
            assert(req.resource_profiles@.skip(i as int).drop_first() =~= req.resource_profiles@.skip(
                i as int + 1,
            ));
        }
        let rp = &req.resource_profiles[i];
        let ghost st_r = (graph.root@, count as int);
        let ns = rp.scope_profiles.len();
        let mut j: usize = 0;
        proof {
            assert(rp.scope_profiles@.skip(0) =~= rp.scope_profiles@);
        }
        while j < ns
            invariant
                j <= ns,
                graph.root@.wf(),
                ingest_scopes(st_r, *dict, rp.scope_profiles@) == ingest_scopes(
                    (graph.root@, count as int),
                    *dict,
                    rp.scope_profiles@.skip(j as int),
                ),
            decreases ns - j,
        {
            proof {
                assert(rp.scope_profiles@.skip(j as int)[0] == rp.scope_profiles@[j as int]);
                assert(rp.scope_profiles@.skip(j as int).drop_first() =~= rp.scope_profiles@.skip(
                    j as int + 1,
                ));
            }
            let sp = &rp.scope_profiles[j];
            let ghost st_s = (graph.root@, count as int);
            let np = sp.profiles.len();
            let mut k: usize = 0;
            proof {
                assert(sp.profiles@.skip(0) =~= sp.profiles@);
            }
            while k < np
                invariant
                    k <= np,
                    graph.root@.wf(),
                    ingest_profiles(st_s, *dict, sp.profiles@) == ingest_profiles(
                        (graph.root@, count as int),
                        *dict,
                        sp.profiles@.skip(k as int),
                    ),
                decreases np - k,
            {
                proof {
                    assert(sp.profiles@.skip(k as int)[0] == sp.profiles@[k as int]);
                    assert(sp.profiles@.skip(k as int).drop_first() =~= sp.profiles@.skip(
                        k as int + 1,
                    ));
                }
                let pr = &sp.profiles[k];
                let ghost st_p = (graph.root@, count as int);
                let nm = pr.samples.len();
                let mut m: usize = 0;
                proof {
                    assert(pr.samples@.skip(0) =~= pr.samples@);
                }
                while m < nm
                    invariant
                        m <= nm,
                        graph.root@.wf(),
                        ingest_samples(st_p, *dict, pr.samples@) == ingest_samples(
                            (graph.root@, count as int),
                            *dict,
                            pr.samples@.skip(m as int),
                        ),
                    decreases nm - m,
                {
                    proof {
                        assert(pr.samples@.skip(m as int)[0] == pr.samples@[m as int]);
                        assert(pr.samples@.skip(m as int).drop_first() =~= pr.samples@.skip(
                            m as int + 1,
                        ));
                    }
                    let sample = &pr.samples[m];
                    let stack = resolve_stack(sample, Some(dict));
                    if stack.len() > 0 {
                        let w = sample_weight(sample);
                        if graph.root.total_value <= i64::MAX - w {
                            let ghost pre = graph.root@;
                            graph.add_stack(stack.as_slice(), w);
                            proof {
                                lemma_add_stack_wf(
                                    pre,
                                    spec_resolve_stack(*dict, pr.samples@[m as int]),
                                    w as int,
                                );
                            }
                            if count < u64::MAX {
                                count = count + 1;
                            }
                        }
                    }
                    m = m + 1;
                }
                proof {
                    assert(pr.samples@.skip(nm as int) =~= Seq::<Sample>::empty());
                }
                k = k + 1;
            }
            proof {
                assert(sp.profiles@.skip(np as int) =~= Seq::<Profile>::empty());
            }
            j = j + 1;
        }
        proof {
            assert(rp.scope_profiles@.skip(ns as int) =~= Seq::<ScopeProfiles>::empty());
        }
        i = i + 1;
    }
    proof {
        assert(req.resource_profiles@.skip(nr as int) =~= Seq::<ResourceProfiles>::empty());
        lemma_sort_wf(graph.root@);
    }
    graph.root.sort_recursive();
    (graph, count)
}

} // verus!
