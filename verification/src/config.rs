//! The parsed dotfiles configuration: a version number and the list of
//! configured mappings, together with its validation rules (mappings must be
//! relative, and no mapping may nest inside another) and the strict document
//! codec the configuration file is read and written with.

use vstd::multiset::Multiset;
use vstd::prelude::*;
use vstd::seq_lib::group_to_multiset_ensures;

use crate::errors::AppError;
use crate::paths::{
    is_prefix, lemma_path_between_prefix, lemma_path_le_antisymmetric, lemma_path_le_total,
    lemma_path_le_transitive, lemma_path_prefix_le, path_le, path_wf, NormPath, PathModel,
};

verus! {

broadcast use group_to_multiset_ensures;

/// Mathematical model of a configuration: the version number and the
/// sequence of mapping path models.
#[verifier::ext_equal]
pub ghost struct ConfigModel {
    pub config_version: int,
    pub mappings: Seq<PathModel>,
}

/// The parsed dotfiles configuration.
#[derive(Debug)]
pub struct AppConfig {
    /// The configuration schema version.
    pub config_version: i8,
    /// The configured mappings: paths relative to both the repository root
    /// and the home directory.
    pub mappings: Vec<NormPath>,
}

impl View for AppConfig {
    type V = ConfigModel;

    open spec fn view(&self) -> ConfigModel {
        ConfigModel {
            config_version: self.config_version as int,
            mappings: Seq::new(self.mappings@.len(), |i: int| self.mappings@[i]@),
        }
    }
}

/// The sequence of path models a mapping list stands for.
pub open spec fn views_of(v: Seq<NormPath>) -> Seq<PathModel> {
    Seq::new(v.len(), |i: int| v[i]@)
}

/// Some mapping is a (possibly improper) prefix of some other mapping:
/// the nesting the configuration must never contain.
pub open spec fn has_nested_pair(ms: Seq<PathModel>) -> bool {
    exists|i: int, j: int|
        0 <= i < ms.len() && 0 <= j < ms.len() && i != j && is_prefix(ms[i], ms[j])
}

/// Every mapping is well-formed.
pub open spec fn mappings_wf(ms: Seq<PathModel>) -> bool {
    forall|i: int| 0 <= i < ms.len() ==> path_wf(#[trigger] ms[i])
}

/// Every mapping is relative.
pub open spec fn mappings_relative(ms: Seq<PathModel>) -> bool {
    forall|i: int| 0 <= i < ms.len() ==> !(#[trigger] ms[i]).absolute
}

/// A fully validated mapping list: well-formed, relative, and nothing
/// nested. This is what the traversal and planning logic relies on.
pub open spec fn mappings_validated(ms: Seq<PathModel>) -> bool {
    &&& mappings_wf(ms)
    &&& mappings_relative(ms)
    &&& !has_nested_pair(ms)
}

/// Any two positions of a sequence reappear, with the same values, at two
/// distinct positions of any rearrangement of it.
pub proof fn lemma_pair_in_rearrangement<A>(s1: Seq<A>, s2: Seq<A>, k: int, l: int)
    requires
        s1.to_multiset() == s2.to_multiset(),
        0 <= k < s1.len(),
        0 <= l < s1.len(),
        k != l,
    ensures
        exists|i: int, j: int|
            0 <= i < s2.len() && 0 <= j < s2.len() && i != j && s2[i] == s1[k] && s2[j] == s1[l],
{
    let v = s1[k];
    let w = s1[l];
    if v == w {
        // The value occurs at two positions of s1, so its count is at
        // least 2, and so it occurs at two distinct positions of s2.
        let lk = if l < k {
            l
        } else {
            l - 1
        };
        assert(s1.remove(k)[lk] == v);
        assert(s1.remove(k).contains(v));
        assert(s1.remove(k).to_multiset().count(v) > 0);
        assert(s1.remove(k).to_multiset() == s1.to_multiset().remove(v));
        assert(s1.to_multiset().count(v) >= 2);
        assert(s2.to_multiset().count(v) >= 2);
        assert(s2.contains(v));
        let i = choose|i: int| 0 <= i < s2.len() && s2[i] == v;
        assert(s2.remove(i).to_multiset() == s2.to_multiset().remove(v));
        assert(s2.remove(i).to_multiset().count(v) >= 1);
        assert(s2.remove(i).contains(v));
        let j0 = choose|j0: int| 0 <= j0 < s2.remove(i).len() && s2.remove(i)[j0] == v;
        let j = if j0 < i {
            j0
        } else {
            j0 + 1
        };
        assert(s2[j] == v);
        assert(i != j);
        assert(0 <= j < s2.len());
    } else {
        assert(s1.contains(v));
        assert(s1.contains(w));
        assert(s1.to_multiset().count(v) > 0);
        assert(s1.to_multiset().count(w) > 0);
        assert(s2.contains(v));
        assert(s2.contains(w));
        let i = choose|i: int| 0 <= i < s2.len() && s2[i] == v;
        let j = choose|j: int| 0 <= j < s2.len() && s2[j] == w;
        assert(i != j);
    }
}

/// Whether a mapping list nests depends only on which mappings it holds,
/// never on the order they were inserted in.
pub proof fn lemma_nesting_insertion_order_irrelevant(m1: Seq<PathModel>, m2: Seq<PathModel>)
    requires
        m1.to_multiset() == m2.to_multiset(),
    ensures
        has_nested_pair(m1) == has_nested_pair(m2),
{
    if has_nested_pair(m1) {
        let (i, j) = choose|i: int, j: int|
            0 <= i < m1.len() && 0 <= j < m1.len() && i != j && is_prefix(m1[i], m1[j]);
        lemma_pair_in_rearrangement(m1, m2, i, j);
    }
    if has_nested_pair(m2) {
        let (i, j) = choose|i: int, j: int|
            0 <= i < m2.len() && 0 <= j < m2.len() && i != j && is_prefix(m2[i], m2[j]);
        lemma_pair_in_rearrangement(m2, m1, i, j);
    }
}

// ---------------------------------------------------------------------
// The configuration document codec.
//
// The configuration file is a small, strictly structured document: a
// version line, an opening line for the mapping list, one indented quoted
// mapping string per line (forward-slash separated, trailing comma), and a
// closing bracket, every line newline-terminated:
//
//     config_version = 1
//     mappings = [
//         ".config/app",
//     ]
//
// The writer emits exactly this canonical form; the reader accepts exactly
// it back, which is what makes the round trip provable.
// ---------------------------------------------------------------------

/// The newline byte terminating every line of the document.
pub const NL_BYTE: u8 = 10;

/// Splitting document bytes at every newline; even the empty input yields
/// one (empty) field.
pub open spec fn split_lines(s: Seq<u8>) -> Seq<Seq<u8>>
    decreases s.len(),
{
    if s.len() == 0 {
        seq![Seq::<u8>::empty()]
    } else if s[0] == NL_BYTE {
        seq![Seq::<u8>::empty()] + split_lines(s.drop_first())
    } else {
        let rest = split_lines(s.drop_first());
        seq![seq![s[0]] + rest[0]] + rest.drop_first()
    }
}

/// A byte string containing no newline.
pub open spec fn line_free(s: Seq<u8>) -> bool {
    forall|i: int| 0 <= i < s.len() ==> s[i] != NL_BYTE
}

/// Splitting always yields at least one field.
proof fn lemma_split_lines_len(s: Seq<u8>)
    ensures
        split_lines(s).len() >= 1,
    decreases s.len(),
{
    if s.len() > 0 {
        lemma_split_lines_len(s.drop_first());
    }
}

/// Splitting a newline-free byte string yields exactly that string.
proof fn lemma_split_lines_free(s: Seq<u8>)
    requires
        line_free(s),
    ensures
        split_lines(s) == seq![s],
    decreases s.len(),
{
    if s.len() == 0 {
        assert(split_lines(s) =~~= seq![s]);
    } else {
        assert(line_free(s.drop_first()));
        lemma_split_lines_free(s.drop_first());
        lemma_split_lines_len(s.drop_first());
        assert(seq![s[0]] + s.drop_first() =~= s);
        assert(split_lines(s) =~~= seq![s]);
    }
}

/// Splitting after a newline-free line and its terminator peels that line
/// off the front.
proof fn lemma_split_lines_prepend(c: Seq<u8>, r: Seq<u8>)
    requires
        line_free(c),
    ensures
        split_lines(c + seq![NL_BYTE] + r) == seq![c] + split_lines(r),
    decreases c.len(),
{
    let s = c + seq![NL_BYTE] + r;
    if c.len() == 0 {
        assert(s[0] == NL_BYTE);
        assert(s.drop_first() =~= r);
        assert(split_lines(s) =~~= seq![c] + split_lines(r));
    } else {
        assert(s[0] == c[0]);
        assert(s[0] != NL_BYTE);
        assert(line_free(c.drop_first()));
        assert(s.drop_first() =~= c.drop_first() + seq![NL_BYTE] + r);
        lemma_split_lines_prepend(c.drop_first(), r);
        lemma_split_lines_len(r);
        let rest = split_lines(s.drop_first());
        assert(rest == seq![c.drop_first()] + split_lines(r));
        assert(seq![s[0]] + rest[0] =~= c);
        assert(rest.drop_first() =~= split_lines(r));
        assert(split_lines(s) =~~= seq![c] + split_lines(r));
    }
}

/// The fixed first-line key of the document: `config_version = `.
pub open spec fn version_prefix() -> Seq<u8> {
    seq![
        99u8, 111u8, 110u8, 102u8, 105u8, 103u8, 95u8, 118u8, 101u8, 114u8, 115u8, 105u8, 111u8,
        110u8, 32u8, 61u8, 32u8,
    ]
}

/// The fixed second line of the document: `mappings = [`.
pub open spec fn mappings_header() -> Seq<u8> {
    seq![109u8, 97u8, 112u8, 112u8, 105u8, 110u8, 103u8, 115u8, 32u8, 61u8, 32u8, 91u8]
}

/// The fixed closing line of the document: `]`.
pub open spec fn closing_line() -> Seq<u8> {
    seq![93u8]
}

/// The opening of a mapping line: four spaces of indent and a quote.
pub open spec fn mapping_line_open() -> Seq<u8> {
    seq![32u8, 32u8, 32u8, 32u8, 34u8]
}

/// A decimal digit byte.
pub open spec fn is_digit(b: u8) -> bool {
    48 <= b <= 57
}

/// The value of a digit string.
pub open spec fn digits_val(s: Seq<u8>) -> int
    decreases s.len(),
{
    if s.len() == 0 {
        0
    } else {
        digits_val(s.drop_last()) * 10 + (s.last() - 48)
    }
}

/// A canonical digit string: nonempty, digits only, no leading zero.
pub open spec fn valid_number(s: Seq<u8>) -> bool {
    &&& s.len() > 0
    &&& forall|i: int| 0 <= i < s.len() ==> is_digit(#[trigger] s[i])
    &&& (s.len() == 1 || s[0] != 48)
}

/// Parsing a canonically rendered integer: an optional minus sign (never
/// in front of zero) followed by a canonical digit string.
pub open spec fn parse_int_bytes(s: Seq<u8>) -> Option<int> {
    if s.len() > 0 && s[0] == 45 {
        if valid_number(s.drop_first()) && digits_val(s.drop_first()) > 0 {
            Some(-digits_val(s.drop_first()))
        } else {
            None
        }
    } else if valid_number(s) {
        Some(digits_val(s))
    } else {
        None
    }
}

/// Parsing the version line: the fixed key, then an integer in the range
/// the configuration stores.
pub open spec fn parse_version_line(l: Seq<u8>) -> Option<int> {
    if l.len() < 18 {
        None
    } else if l.take(17) != version_prefix() {
        None
    } else {
        match parse_int_bytes(l.skip(17)) {
            Some(v) => if -128 <= v <= 127 {
                Some(v)
            } else {
                None
            },
            None => None,
        }
    }
}

/// A byte that a quoted mapping string can carry: anything but a quote or
/// a backslash (newlines cannot occur inside a line).
pub open spec fn string_ok(s: Seq<u8>) -> bool {
    forall|i: int| 0 <= i < s.len() ==> s[i] != 34 && s[i] != 92
}

/// Parsing one mapping line: indent, quote, the mapping string, quote,
/// comma.
pub open spec fn parse_mapping_line(l: Seq<u8>) -> Option<Seq<u8>> {
    if l.len() >= 7 && l.take(5) == mapping_line_open() && l[l.len() - 1] == 44 && l[l.len() - 2]
        == 34 && string_ok(l.subrange(5, l.len() - 2)) {
        Some(l.subrange(5, l.len() - 2))
    } else {
        None
    }
}

/// Parsing the whole document into the version and the raw mapping
/// strings: the document must end with a newline, open with the version
/// line and the list header, close with the bracket line, and hold one
/// well-formed mapping line everywhere in between.
pub open spec fn parse_config_doc(s: Seq<u8>) -> Option<(int, Seq<Seq<u8>>)> {
    let fields = split_lines(s);
    if fields.len() < 4 {
        None
    } else if fields.last().len() != 0 {
        None
    } else {
        let lines = fields.drop_last();
        if parse_version_line(lines[0]) is None {
            None
        } else if lines[1] != mappings_header() {
            None
        } else if lines.last() != closing_line() {
            None
        } else if exists|i: int|
            2 <= i < lines.len() - 1 && parse_mapping_line(#[trigger] lines[i]) is None {
            None
        } else {
            Some(
                (
                    parse_version_line(lines[0])->Some_0,
                    Seq::new((lines.len() - 3) as nat, |i: int| parse_mapping_line(lines[i + 2])->Some_0),
                ),
            )
        }
    }
}

/// The mapping path models a parsed document stands for.
pub open spec fn parsed_mappings(raw: Seq<Seq<u8>>) -> Seq<PathModel> {
    Seq::new(raw.len(), |i: int| crate::paths::parse_path(raw[i]))
}

/// The canonical digit rendering of a nonnegative integer.
pub open spec fn dec_digits(n: int) -> Seq<u8>
    decreases n,
{
    if n <= 9 {
        seq![(48 + if n >= 0 {
            n
        } else {
            0
        }) as u8]
    } else {
        dec_digits(n / 10).push((48 + n % 10) as u8)
    }
}

/// The canonical rendering of an integer.
pub open spec fn render_int(v: int) -> Seq<u8> {
    if v < 0 {
        seq![45u8] + dec_digits(-v)
    } else {
        dec_digits(v)
    }
}

/// The canonical rendering of one mapping line.
pub open spec fn render_mapping_line(p: PathModel) -> Seq<u8> {
    mapping_line_open() + crate::paths::serialize_path(p) + seq![34u8, 44u8]
}

/// The canonical rendering of the mapping block, one line per mapping.
pub open spec fn render_mapping_lines(ms: Seq<PathModel>) -> Seq<u8>
    decreases ms.len(),
{
    if ms.len() == 0 {
        Seq::empty()
    } else {
        render_mapping_line(ms[0]) + seq![NL_BYTE] + render_mapping_lines(ms.drop_first())
    }
}

/// The canonical rendering of the whole document.
pub open spec fn render_config(c: ConfigModel) -> Seq<u8> {
    version_prefix() + render_int(c.config_version) + seq![NL_BYTE] + mappings_header()
        + seq![NL_BYTE] + render_mapping_lines(c.mappings) + closing_line() + seq![NL_BYTE]
}

/// A segment every byte of which the document format can carry.
pub open spec fn seg_printable(s: Seq<u8>) -> bool {
    forall|i: int| 0 <= i < s.len() ==> s[i] != 34 && s[i] != 92 && s[i] != NL_BYTE
}

/// A path the document format can carry.
pub open spec fn path_printable(p: PathModel) -> bool {
    forall|i: int| 0 <= i < p.segments.len() ==> seg_printable(#[trigger] p.segments[i])
}

/// Canonical digit strings parse back to their value.
proof fn lemma_dec_digits(n: int)
    requires
        n >= 0,
    ensures
        valid_number(dec_digits(n)),
        digits_val(dec_digits(n)) == n,
        n >= 1 ==> dec_digits(n)[0] != 48,
        dec_digits(n)[0] != 45,
    decreases n,
{
    if n <= 9 {
        assert((48 + n) as u8 == 48 + n);
        assert(dec_digits(n) =~= seq![(48 + n) as u8]);
        assert(dec_digits(n).drop_last() =~= Seq::<u8>::empty());
        assert(digits_val(Seq::<u8>::empty()) == 0);
        assert(digits_val(dec_digits(n)) == digits_val(dec_digits(n).drop_last()) * 10 + (
        dec_digits(n).last() - 48));
    } else {
        lemma_dec_digits(n / 10);
        let d = dec_digits(n / 10);
        let r = d.push((48 + n % 10) as u8);
        assert(r.drop_last() =~= d);
        assert(r.last() == (48 + n % 10) as u8);
        assert(digits_val(r) == digits_val(d) * 10 + n % 10);
        assert(digits_val(r) == n);
        assert(r[0] == d[0]);
        assert(n / 10 >= 1);
        assert forall|i: int| 0 <= i < r.len() implies is_digit(#[trigger] r[i]) by {
            if i < d.len() {
                assert(r[i] == d[i]);
            }
        }
    }
}

/// Canonically rendered integers parse back to their value.
proof fn lemma_parse_int_render(v: int)
    ensures
        parse_int_bytes(render_int(v)) == Some(v),
{
    if v < 0 {
        lemma_dec_digits(-v);
        let s = seq![45u8] + dec_digits(-v);
        assert(s[0] == 45);
        assert(s.drop_first() =~= dec_digits(-v));
    } else {
        lemma_dec_digits(v);
        let s = render_int(v);
        assert(s[0] != 45);
    }
}

/// Rendering well-formed printable segments yields a string the quoted
/// form can carry.
#[verifier::rlimit(50)]
proof fn lemma_join_printable(ss: Seq<Seq<u8>>)
    requires
        forall|i: int| 0 <= i < ss.len() ==> seg_printable(#[trigger] ss[i]),
    ensures
        seg_printable(crate::paths::join_segs(ss)),
    decreases ss.len(),
{
    let j = crate::paths::join_segs(ss);
    if ss.len() == 0 {
    } else if ss.len() == 1 {
        assert(j == ss[0]);
    } else {
        assert(forall|i: int|
            0 <= i < ss.drop_first().len() ==> seg_printable(#[trigger] ss.drop_first()[i]));
        lemma_join_printable(ss.drop_first());
        let rest = crate::paths::join_segs(ss.drop_first());
        assert(j == ss[0] + seq![crate::paths::SEP_BYTE] + rest);
        assert forall|i: int| 0 <= i < j.len() implies j[i] != 34 && j[i] != 92 && j[i]
            != NL_BYTE by {
            if i < ss[0].len() {
                assert(j[i] == ss[0][i]);
            } else if i == ss[0].len() {
                assert(j[i] == crate::paths::SEP_BYTE);
            } else {
                assert(j[i] == rest[i - ss[0].len() - 1]);
            }
        }
    }
}

/// A printable path renders to a printable byte string.
proof fn lemma_serialize_printable(p: PathModel)
    requires
        path_printable(p),
    ensures
        seg_printable(crate::paths::serialize_path(p)),
{
    lemma_join_printable(p.segments);
    let s = crate::paths::serialize_path(p);
    if p.absolute {
        let j = crate::paths::join_segs(p.segments);
        assert forall|i: int| 0 <= i < s.len() implies s[i] != 34 && s[i] != 92 && s[i]
            != NL_BYTE by {
            if i > 0 {
                assert(s[i] == j[i - 1]);
            }
        }
    }
}

/// One rendered mapping line is newline-free and parses back to the
/// rendered path string.
proof fn lemma_mapping_line_roundtrip(p: PathModel)
    requires
        path_printable(p),
    ensures
        line_free(render_mapping_line(p)),
        parse_mapping_line(render_mapping_line(p)) == Some(crate::paths::serialize_path(p)),
{
    lemma_serialize_printable(p);
    let b = crate::paths::serialize_path(p);
    let l = render_mapping_line(p);
    assert forall|i: int| 0 <= i < l.len() implies l[i] != NL_BYTE by {
        if i < 5 {
            assert(l[i] == mapping_line_open()[i]);
        } else if i < 5 + b.len() {
            assert(l[i] == b[i - 5]);
        } else {
            assert(l[i] == seq![34u8, 44u8][i - 5 - b.len()]);
        }
    }
    assert(l.take(5) =~= mapping_line_open());
    assert(l[l.len() - 1] == 44);
    assert(l[l.len() - 2] == 34);
    assert(l.subrange(5, l.len() - 2) =~= b);
}

/// Splitting the rendered mapping block followed by the closing line
/// yields the mapping lines, the closing line, and the trailing empty
/// field.
proof fn lemma_split_mapping_block(ms: Seq<PathModel>)
    requires
        forall|i: int| 0 <= i < ms.len() ==> path_printable(#[trigger] ms[i]),
    ensures
        split_lines(render_mapping_lines(ms) + closing_line() + seq![NL_BYTE]) == Seq::new(
            ms.len(),
            |i: int| render_mapping_line(ms[i]),
        ) + seq![closing_line(), Seq::<u8>::empty()],
    decreases ms.len(),
{
    if ms.len() == 0 {
        assert(render_mapping_lines(ms) + closing_line() + seq![NL_BYTE] =~= closing_line()
            + seq![NL_BYTE] + Seq::<u8>::empty());
        assert(line_free(closing_line()));
        lemma_split_lines_prepend(closing_line(), Seq::<u8>::empty());
        assert(split_lines(Seq::<u8>::empty()) == seq![Seq::<u8>::empty()]);
        assert(split_lines(render_mapping_lines(ms) + closing_line() + seq![NL_BYTE])
            =~~= Seq::new(ms.len(), |i: int| render_mapping_line(ms[i])) + seq![
            closing_line(),
            Seq::<u8>::empty(),
        ]);
    } else {
        assert(forall|i: int|
            0 <= i < ms.drop_first().len() ==> path_printable(#[trigger] ms.drop_first()[i]));
        lemma_split_mapping_block(ms.drop_first());
        lemma_mapping_line_roundtrip(ms[0]);
        let tail = render_mapping_lines(ms.drop_first()) + closing_line() + seq![NL_BYTE];
        assert(render_mapping_lines(ms) + closing_line() + seq![NL_BYTE] =~= render_mapping_line(
            ms[0],
        ) + seq![NL_BYTE] + tail);
        lemma_split_lines_prepend(render_mapping_line(ms[0]), tail);
        assert(split_lines(render_mapping_lines(ms) + closing_line() + seq![NL_BYTE])
            =~~= Seq::new(ms.len(), |i: int| render_mapping_line(ms[i])) + seq![
            closing_line(),
            Seq::<u8>::empty(),
        ]);
    }
}

/// The rendered version line parses back to the version.
proof fn lemma_version_line_roundtrip(v: int)
    requires
        -128 <= v <= 127,
    ensures
        line_free(version_prefix() + render_int(v)),
        parse_version_line(version_prefix() + render_int(v)) == Some(v),
{
    lemma_parse_int_render(v);
    if v < 0 {
        lemma_dec_digits(-v);
    } else {
        lemma_dec_digits(v);
    }
    let l = version_prefix() + render_int(v);
    assert forall|i: int| 0 <= i < l.len() implies l[i] != NL_BYTE by {
        if i < 17 {
            assert(l[i] == version_prefix()[i]);
        } else {
            assert(l[i] == render_int(v)[i - 17]);
            if v < 0 {
                if i > 17 {
                    assert(render_int(v)[i - 17] == dec_digits(-v)[i - 18]);
                    assert(is_digit(dec_digits(-v)[i - 18]));
                }
            } else {
                assert(is_digit(dec_digits(v)[i - 17]));
            }
        }
    }
    assert(l.take(17) =~= version_prefix());
    assert(l.skip(17) =~= render_int(v));
}

/// Round trip of the whole document: rendering a configuration whose
/// mappings are well-formed and printable, then parsing the result, yields
/// the version back and, mapping for mapping, path-equal entries. Leading
/// current-directory markers never matter here, because parsing itself
/// normalizes them away (see `lemma_parse_dot_slash`).
pub proof fn lemma_config_document_roundtrip(c: ConfigModel)
    requires
        -128 <= c.config_version <= 127,
        mappings_wf(c.mappings),
        forall|i: int| 0 <= i < c.mappings.len() ==> path_printable(#[trigger] c.mappings[i]),
    ensures
        parse_config_doc(render_config(c)) is Some,
        parse_config_doc(render_config(c))->Some_0.0 == c.config_version,
        parsed_mappings(parse_config_doc(render_config(c))->Some_0.1) == c.mappings,
{
    let doc = render_config(c);
    let vline = version_prefix() + render_int(c.config_version);
    let block = render_mapping_lines(c.mappings) + closing_line() + seq![NL_BYTE];
    lemma_version_line_roundtrip(c.config_version);
    assert(doc =~= vline + seq![NL_BYTE] + (mappings_header() + seq![NL_BYTE] + block));
    lemma_split_lines_prepend(vline, mappings_header() + seq![NL_BYTE] + block);
    assert(mappings_header() + seq![NL_BYTE] + block =~= mappings_header() + seq![NL_BYTE]
        + block);
    assert(line_free(mappings_header()));
    lemma_split_lines_prepend(mappings_header(), block);
    lemma_split_mapping_block(c.mappings);
    let n = c.mappings.len() as int;
    let mlines = Seq::new(c.mappings.len(), |i: int| render_mapping_line(c.mappings[i]));
    let fields = split_lines(doc);
    assert(fields =~= seq![vline, mappings_header()] + mlines + seq![
        closing_line(),
        Seq::<u8>::empty(),
    ]);
    assert(fields.len() == n + 4);
    assert(fields.last().len() == 0);
    let lines = fields.drop_last();
    assert(lines.len() == n + 3);
    assert(lines[0] == vline);
    assert(lines[1] == mappings_header());
    assert(lines.last() == closing_line());
    assert forall|i: int| 2 <= i < lines.len() - 1 implies parse_mapping_line(
        #[trigger] lines[i],
    ) is Some by {
        assert(lines[i] == mlines[i - 2]);
        lemma_mapping_line_roundtrip(c.mappings[i - 2]);
    }
    let raw = parse_config_doc(doc)->Some_0.1;
    assert forall|i: int| 0 <= i < c.mappings.len() implies parsed_mappings(raw)[i]
        == c.mappings[i] by {
        assert(lines[i + 2] == mlines[i]);
        lemma_mapping_line_roundtrip(c.mappings[i]);
        assert(raw[i] == crate::paths::serialize_path(c.mappings[i]));
        assert(path_wf(c.mappings[i]));
        crate::paths::lemma_parse_serialize_roundtrip(c.mappings[i]);
    }
    assert(parsed_mappings(raw) =~= c.mappings);
}

/// Builds the bytes of the version-line key.
fn version_prefix_vec() -> (r: Vec<u8>)
    ensures
        r@ == version_prefix(),
{
    let mut r: Vec<u8> = Vec::new();
    r.push(99);
    r.push(111);
    r.push(110);
    r.push(102);
    r.push(105);
    r.push(103);
    r.push(95);
    r.push(118);
    r.push(101);
    r.push(114);
    r.push(115);
    r.push(105);
    r.push(111);
    r.push(110);
    r.push(32);
    r.push(61);
    r.push(32);
    proof {
        assert(r@ =~= version_prefix());
    }
    r
}

/// Builds the bytes of the mapping-list header line.
fn mappings_header_vec() -> (r: Vec<u8>)
    ensures
        r@ == mappings_header(),
{
    let mut r: Vec<u8> = Vec::new();
    r.push(109);
    r.push(97);
    r.push(112);
    r.push(112);
    r.push(105);
    r.push(110);
    r.push(103);
    r.push(115);
    r.push(32);
    r.push(61);
    r.push(32);
    r.push(91);
    proof {
        assert(r@ =~= mappings_header());
    }
    r
}

/// Whether two byte vectors hold the same bytes.
fn bytes_eq(a: &Vec<u8>, b: &Vec<u8>) -> (r: bool)
    ensures
        r == (a@ == b@),
{
    if a.len() != b.len() {
        return false;
    }
    let mut i: usize = 0;
    while i < a.len()
        invariant
            0 <= i <= a@.len(),
            a@.len() == b@.len(),
            forall|k: int| 0 <= k < i ==> a@[k] == b@[k],
        decreases a@.len() - i,
    {
        if a[i] != b[i] {
            return false;
        }
        i = i + 1;
    }
    proof {
        assert(a@ =~= b@);
    }
    true
}

/// Whether every byte of every segment can be carried by the document.
fn path_is_printable(p: &NormPath) -> (r: bool)
    ensures
        r == path_printable(p@),
{
    let mut i: usize = 0;
    while i < p.segments.len()
        invariant
            0 <= i <= p@.segments.len(),
            p@.segments.len() == p.segments@.len(),
            forall|k: int| 0 <= k < i ==> seg_printable(#[trigger] p@.segments[k]),
        decreases p@.segments.len() - i,
    {
        let seg = &p.segments[i];
        proof {
            crate::paths::lemma_bytes_deep_view(p.segments@[i as int]);
        }
        let mut j: usize = 0;
        while j < seg.len()
            invariant
                0 <= i < p@.segments.len(),
                p@.segments[i as int] == seg@,
                0 <= j <= seg@.len(),
                forall|k: int| 0 <= k < j ==> seg@[k] != 34 && seg@[k] != 92 && seg@[k] != NL_BYTE,
            decreases seg@.len() - j,
        {
            let b = seg[j];
            if b == 34 || b == 92 || b == NL_BYTE {
                proof {
                    assert(!seg_printable(seg@));
                    assert(p@.segments[i as int] == seg@);
                }
                return false;
            }
            j = j + 1;
        }
        i = i + 1;
    }
    true
}

/// Appends the digits of the version to the output.
fn push_version(out: &mut Vec<u8>, v: i8)
    ensures
        final(out)@ == old(out)@ + render_int(v as int),
{
    let ghost base = out@;
    let m: u32 = if v < 0 {
        out.push(45);
        (-(v as i32)) as u32
    } else {
        v as u32
    };
    let ghost mid = out@;
    proof {
        assert(m == if v < 0 {
            -(v as int)
        } else {
            v as int
        });
    }
    if m >= 100 {
        out.push(48 + (m / 100) as u8);
        out.push(48 + ((m / 10) % 10) as u8);
        out.push(48 + (m % 10) as u8);
        proof {
            let n = m as int;
            assert(dec_digits(n / 10 / 10) =~= seq![(48 + n / 10 / 10) as u8]);
            assert(n / 10 / 10 == 1) by {
                assert(10 <= n / 10 <= 12);
            }
            assert(n / 100 == 1);
            assert(dec_digits(n / 10) =~= seq![49u8, (48 + (n / 10) % 10) as u8]);
            assert(dec_digits(n) =~= seq![49u8, (48 + (n / 10) % 10) as u8, (48 + n % 10) as u8]);
            assert(out@ =~= mid + dec_digits(n));
        }
    } else if m >= 10 {
        out.push(48 + (m / 10) as u8);
        out.push(48 + (m % 10) as u8);
        proof {
            let n = m as int;
            assert(dec_digits(n / 10) =~= seq![(48 + n / 10) as u8]);
            assert((n / 10) % 10 == n / 10);
            assert(dec_digits(n) =~= seq![(48 + n / 10) as u8, (48 + n % 10) as u8]);
            assert(out@ =~= mid + dec_digits(n));
        }
    } else {
        out.push(48 + m as u8);
        proof {
            let n = m as int;
            assert(dec_digits(n) =~= seq![(48 + n) as u8]);
            assert(out@ =~= mid + dec_digits(n));
        }
    }
    proof {
        if v < 0 {
            assert(mid =~= base + seq![45u8]);
            assert(out@ =~= base + render_int(v as int));
        } else {
            assert(out@ =~= base + render_int(v as int));
        }
    }
}

/// Appends every byte of `src` to `out`.
fn push_bytes(out: &mut Vec<u8>, src: &Vec<u8>)
    ensures
        final(out)@ == old(out)@ + src@,
{
    let mut i: usize = 0;
    while i < src.len()
        invariant
            0 <= i <= src@.len(),
            out@ == old(out)@ + src@.take(i as int),
        decreases src@.len() - i,
    {
        out.push(src[i]);
        proof {
            assert(out@ =~= old(out)@ + src@.take(i + 1));
        }
        i = i + 1;
    }
    proof {
        assert(src@.take(src@.len() as int) =~= src@);
    }
}

/// Appending the next mapping to a partially rendered block.
proof fn lemma_render_lines_snoc(ms: Seq<PathModel>, i: int)
    requires
        0 <= i < ms.len(),
    ensures
        render_mapping_lines(ms.take(i + 1)) == render_mapping_lines(ms.take(i))
            + render_mapping_line(ms[i]) + seq![NL_BYTE],
    decreases i,
{
    if i == 0 {
        assert(ms.take(1).len() == 1);
        assert(ms.take(1)[0] == ms[0]);
        assert(ms.take(1).drop_first() =~= Seq::<PathModel>::empty());
        assert(render_mapping_lines(Seq::<PathModel>::empty()) == Seq::<u8>::empty());
        assert(render_mapping_lines(ms.take(1)) =~= render_mapping_lines(ms.take(0))
            + render_mapping_line(ms[0]) + seq![NL_BYTE]);
    } else {
        let t = ms.take(i + 1);
        let u = ms.take(i);
        assert(t[0] == ms[0]);
        assert(u[0] == ms[0]);
        assert(t.drop_first() =~= ms.drop_first().take(i));
        assert(u.drop_first() =~= ms.drop_first().take(i - 1));
        lemma_render_lines_snoc(ms.drop_first(), i - 1);
        assert(ms.drop_first()[i - 1] == ms[i]);
        assert(render_mapping_lines(t) =~= render_mapping_lines(u) + render_mapping_line(ms[i])
            + seq![NL_BYTE]);
    }
}

/// Splits raw document bytes at every newline.
fn split_lines_exec(bytes: &Vec<u8>) -> (r: Vec<Vec<u8>>)
    ensures
        r.deep_view() == split_lines(bytes@),
        r@.len() >= 1,
{
    let mut fields: Vec<Vec<u8>> = Vec::new();
    let mut cur: Vec<u8> = Vec::new();
    let mut i: usize = 0;
    proof {
        assert(cur@ + bytes@.skip(0) =~= bytes@);
        assert(fields.deep_view() =~= Seq::<Seq<u8>>::empty());
    }
    while i < bytes.len()
        invariant
            0 <= i <= bytes@.len(),
            line_free(cur@),
            split_lines(bytes@) == fields.deep_view() + split_lines(cur@ + bytes@.skip(i as int)),
        decreases bytes@.len() - i,
    {
        let b = bytes[i];
        let ghost prev_cur = cur@;
        let ghost prev_fields = fields.deep_view();
        if b == NL_BYTE {
            proof {
                assert(prev_cur + bytes@.skip(i as int) =~= prev_cur + seq![NL_BYTE]
                    + bytes@.skip(i + 1));
                lemma_split_lines_prepend(prev_cur, bytes@.skip(i + 1));
            }
            fields.push(cur);
            proof {
                crate::paths::lemma_bytes_deep_view(cur);
                assert(fields.deep_view() =~= prev_fields.push(prev_cur));
            }
            cur = Vec::new();
            proof {
                assert(cur@ =~= Seq::<u8>::empty());
                assert(cur@ + bytes@.skip(i + 1) =~= bytes@.skip(i + 1));
                assert(fields.deep_view() + split_lines(bytes@.skip(i + 1)) =~= (prev_fields
                    + seq![prev_cur]) + split_lines(bytes@.skip(i + 1)));
                assert(prev_fields + (seq![prev_cur] + split_lines(bytes@.skip(i + 1)))
                    =~= (prev_fields + seq![prev_cur]) + split_lines(bytes@.skip(i + 1)));
            }
        } else {
            cur.push(b);
            proof {
                assert(cur@ + bytes@.skip(i + 1) =~= prev_cur + bytes@.skip(i as int));
            }
        }
        i = i + 1;
    }
    proof {
        assert(cur@ + bytes@.skip(bytes@.len() as int) =~= cur@);
        lemma_split_lines_free(cur@);
    }
    let ghost prev_fields = fields.deep_view();
    let ghost last = cur@;
    fields.push(cur);
    proof {
        crate::paths::lemma_bytes_deep_view(cur);
        assert(fields.deep_view() =~= prev_fields + seq![last]);
        assert(fields.deep_view() =~= split_lines(bytes@));
        lemma_split_lines_len(bytes@);
    }
    fields
}

/// A digit string with a leading digit of one or more reaches at least
/// the power of ten of its remaining length.
proof fn lemma_digits_val_bounds(s: Seq<u8>)
    requires
        forall|i: int| 0 <= i < s.len() ==> is_digit(#[trigger] s[i]),
    ensures
        digits_val(s) >= 0,
        s.len() >= 1 && s[0] >= 49 && s.len() >= 4 ==> digits_val(s) >= 1000,
        s.len() >= 1 && s[0] >= 49 ==> digits_val(s) >= 1,
        s.len() >= 2 && s[0] >= 49 ==> digits_val(s) >= 10,
        s.len() >= 3 && s[0] >= 49 ==> digits_val(s) >= 100,
    decreases s.len(),
{
    if s.len() > 0 {
        assert(forall|i: int|
            0 <= i < s.drop_last().len() ==> is_digit(#[trigger] s.drop_last()[i]));
        lemma_digits_val_bounds(s.drop_last());
        if s.len() >= 2 {
            assert(s.drop_last()[0] == s[0]);
        }
    }
}

/// Parses the integer part of the version line.
fn parse_int_exec(l: &Vec<u8>, start: usize) -> (r: Option<i8>)
    requires
        start <= l@.len(),
    ensures
        match r {
            Some(v) => parse_int_bytes(l@.skip(start as int)) == Some(v as int),
            None => parse_int_bytes(l@.skip(start as int)) is None || !(-128
                <= parse_int_bytes(l@.skip(start as int))->Some_0 <= 127),
        },
{
    let ghost s = l@.skip(start as int);
    if start == l.len() {
        return None;
    }
    let negative = l[start] == 45;
    let dstart = if negative {
        start + 1
    } else {
        start
    };
    let ghost d = l@.skip(dstart as int);
    proof {
        if negative {
            assert(s[0] == 45);
            assert(s.drop_first() =~= d);
        } else {
            assert(s == d);
        }
    }
    let n = l.len() - dstart;
    if n == 0 || n > 3 {
        proof {
            if n == 0 {
                assert(d.len() == 0);
                assert(!valid_number(d));
            } else if valid_number(d) {
                assert(is_digit(d[0]));
                assert(d[0] >= 49);
                lemma_digits_val_bounds(d);
                assert(digits_val(d) >= 1000);
            }
        }
        return None;
    }
    // Check the digits and the canonical leading-zero rule.
    let mut k: usize = 0;
    while k < n
        invariant
            dstart + n == l@.len(),
            dstart + n <= usize::MAX,
            1 <= n <= 3,
            start <= dstart <= l@.len(),
            s == l@.skip(start as int),
            d == l@.skip(dstart as int),
            negative ==> dstart == start + 1 && s.len() > 0 && s[0] == 45,
            !negative ==> dstart == start && s.len() > 0 && s[0] != 45,
            0 <= k <= n,
            forall|i: int| 0 <= i < k ==> is_digit(#[trigger] d[i]),
        decreases n - k,
    {
        let b = l[dstart + k];
        proof {
            assert(d[k as int] == l@[dstart + k]);
        }
        if b < 48 || b > 57 {
            proof {
                assert(!is_digit(d[k as int]));
                assert(!valid_number(d));
                if negative {
                    assert(s.drop_first() =~= d);
                } else {
                    assert(s == d);
                }
            }
            return None;
        }
        proof {
            assert(is_digit(d[k as int]));
        }
        k = k + 1;
    }
    if n > 1 && l[dstart] == 48 {
        proof {
            assert(d[0] == 48);
            assert(!valid_number(d));
        }
        return None;
    }
    proof {
        assert(valid_number(d));
    }
    // Compute the value, at most three digits.
    let a0 = l[dstart];
    proof {
        assert(d[0] == l@[dstart as int]);
        assert(is_digit(d[0]));
    }
    let v: u32 = if n == 1 {
        proof {
            reveal_with_fuel(digits_val, 5);
            assert(d =~= seq![l@[dstart as int]]);
            assert(d.drop_last() =~= Seq::<u8>::empty());
            assert(digits_val(Seq::<u8>::empty()) == 0);
        }
        (a0 - 48) as u32
    } else if n == 2 {
        let a1 = l[dstart + 1];
        proof {
            reveal_with_fuel(digits_val, 5);
            assert(d[1] == l@[dstart + 1]);
            assert(is_digit(d[1]));
            assert(d =~= seq![l@[dstart as int], l@[dstart + 1]]);
            assert(d.drop_last() =~= seq![l@[dstart as int]]);
            assert(d.drop_last().drop_last() =~= Seq::<u8>::empty());
            assert(digits_val(Seq::<u8>::empty()) == 0);
        }
        (a0 - 48) as u32 * 10 + (a1 - 48) as u32
    } else {
        let a1 = l[dstart + 1];
        let a2 = l[dstart + 2];
        proof {
            reveal_with_fuel(digits_val, 5);
            assert(d[1] == l@[dstart + 1]);
            assert(d[2] == l@[dstart + 2]);
            assert(is_digit(d[1]));
            assert(is_digit(d[2]));
            assert(d =~= seq![l@[dstart as int], l@[dstart + 1], l@[dstart + 2]]);
            assert(d.drop_last() =~= seq![l@[dstart as int], l@[dstart + 1]]);
            assert(d.drop_last().drop_last() =~= seq![l@[dstart as int]]);
            assert(d.drop_last().drop_last().drop_last() =~= Seq::<u8>::empty());
            assert(digits_val(Seq::<u8>::empty()) == 0);
        }
        (a0 - 48) as u32 * 100 + (a1 - 48) as u32 * 10 + (a2 - 48) as u32
    };
    proof {
        reveal_with_fuel(digits_val, 5);
        assert(digits_val(d) == v);
    }
    if negative {
        if v == 0 || v > 128 {
            return None;
        }
        let r: i8 = (-(v as i32)) as i8;
        proof {
            assert(parse_int_bytes(s) == Some(-(v as int)));
        }
        Some(r)
    } else {
        if v > 127 {
            return None;
        }
        let r: i8 = v as i8;
        proof {
            assert(parse_int_bytes(s) == Some(v as int));
        }
        Some(r)
    }
}

/// Parses the prefix and integer of the version line.
fn parse_version_line_exec(l: &Vec<u8>) -> (r: Option<i8>)
    ensures
        match r {
            Some(v) => parse_version_line(l@) == Some(v as int),
            None => parse_version_line(l@) is None,
        },
{
    if l.len() < 18 {
        return None;
    }
    let pfx = version_prefix_vec();
    let mut k: usize = 0;
    while k < 17
        invariant
            l@.len() >= 18,
            pfx@ == version_prefix(),
            0 <= k <= 17,
            forall|i: int| 0 <= i < k ==> l@[i] == version_prefix()[i],
        decreases 17 - k,
    {
        if l[k] != pfx[k] {
            proof {
                if l@.take(17) == version_prefix() {
                    assert(l@.take(17)[k as int] == l@[k as int]);
                }
            }
            return None;
        }
        k = k + 1;
    }
    proof {
        assert(l@.take(17) =~= version_prefix());
    }
    parse_int_exec(l, 17)
}

/// Parses one mapping line, yielding the raw mapping string.
fn parse_mapping_line_exec(l: &Vec<u8>) -> (r: Option<Vec<u8>>)
    ensures
        match r {
            Some(b) => parse_mapping_line(l@) == Some(b@),
            None => parse_mapping_line(l@) is None,
        },
{
    if l.len() < 7 {
        return None;
    }
    if l[0] != 32 || l[1] != 32 || l[2] != 32 || l[3] != 32 || l[4] != 34 {
        proof {
            if l@.take(5) == mapping_line_open() {
                assert(l@.take(5)[0] == l@[0]);
                assert(l@.take(5)[1] == l@[1]);
                assert(l@.take(5)[2] == l@[2]);
                assert(l@.take(5)[3] == l@[3]);
                assert(l@.take(5)[4] == l@[4]);
            }
        }
        return None;
    }
    proof {
        assert(l@.take(5) =~= mapping_line_open());
    }
    if l[l.len() - 1] != 44 || l[l.len() - 2] != 34 {
        return None;
    }
    let mut out: Vec<u8> = Vec::new();
    let mut i: usize = 5;
    let stop = l.len() - 2;
    while i < stop
        invariant
            l@.len() >= 7,
            stop == l@.len() - 2,
            5 <= i <= stop,
            out@ == l@.subrange(5, i as int),
            forall|k: int| 5 <= k < i ==> l@[k] != 34 && l@[k] != 92,
        decreases stop - i,
    {
        let b = l[i];
        if b == 34 || b == 92 {
            proof {
                assert(l@.subrange(5, l@.len() - 2)[i - 5] == l@[i as int]);
                assert(!string_ok(l@.subrange(5, l@.len() - 2)));
            }
            return None;
        }
        out.push(b);
        proof {
            assert(out@ =~= l@.subrange(5, i + 1));
        }
        i = i + 1;
    }
    proof {
        assert(out@ == l@.subrange(5, l@.len() - 2));
        assert(string_ok(l@.subrange(5, l@.len() - 2)));
    }
    Some(out)
}

impl AppConfig {
    /// Renders this configuration into the canonical document bytes, or
    /// reports the first mapping that the document format cannot carry.
    pub fn to_toml_bytes(&self) -> (r: Result<Vec<u8>, AppError>)
        ensures
            match r {
                Ok(bytes) => {
                    &&& forall|i: int|
                        0 <= i < self@.mappings.len() ==> path_printable(
                            #[trigger] self@.mappings[i],
                        )
                    &&& bytes@ == render_config(self@)
                },
                Err(e) => match e {
                    AppError::ConfigSerialize(p) => exists|i: int|
                        0 <= i < self@.mappings.len() && self@.mappings[i] == p@
                            && !path_printable(p@),
                    _ => false,
                },
            },
    {
        let ghost msv = self@.mappings;
        let mut i: usize = 0;
        while i < self.mappings.len()
            invariant
                msv == self@.mappings,
                msv.len() == self.mappings@.len(),
                0 <= i <= msv.len(),
                forall|k: int| 0 <= k < i ==> path_printable(#[trigger] msv[k]),
            decreases msv.len() - i,
        {
            if !path_is_printable(&self.mappings[i]) {
                let p = self.mappings[i].clone();
                proof {
                    assert(msv[i as int] == p@);
                }
                return Err(AppError::ConfigSerialize(p));
            }
            i = i + 1;
        }
        let mut out = version_prefix_vec();
        push_version(&mut out, self.config_version);
        out.push(NL_BYTE);
        let hdr = mappings_header_vec();
        push_bytes(&mut out, &hdr);
        out.push(NL_BYTE);
        let ghost pre = out@;
        proof {
            assert(pre =~= version_prefix() + render_int(self@.config_version) + seq![NL_BYTE]
                + mappings_header() + seq![NL_BYTE]);
            assert(render_mapping_lines(msv.take(0)) =~= Seq::<u8>::empty());
            assert(out@ =~= pre + render_mapping_lines(msv.take(0)));
        }
        let mut i: usize = 0;
        while i < self.mappings.len()
            invariant
                msv == self@.mappings,
                msv.len() == self.mappings@.len(),
                0 <= i <= msv.len(),
                out@ == pre + render_mapping_lines(msv.take(i as int)),
            decreases msv.len() - i,
        {
            let ghost before = out@;
            out.push(32);
            out.push(32);
            out.push(32);
            out.push(32);
            out.push(34);
            let b = self.mappings[i].to_bytes();
            push_bytes(&mut out, &b);
            out.push(34);
            out.push(44);
            out.push(NL_BYTE);
            proof {
                assert(b@ == crate::paths::serialize_path(msv[i as int]));
                assert(out@ =~= before + render_mapping_line(msv[i as int]) + seq![NL_BYTE]);
                lemma_render_lines_snoc(msv, i as int);
                assert(out@ =~= pre + render_mapping_lines(msv.take(i + 1)));
            }
            i = i + 1;
        }
        out.push(93);
        out.push(NL_BYTE);
        proof {
            assert(msv.take(msv.len() as int) =~= msv);
            assert(out@ =~= render_config(self@));
        }
        Ok(out)
    }

    /// Parses the canonical document bytes into a configuration, then
    /// validates it: mappings must be relative and free of nesting, as
    /// when the document was first loaded.
    pub fn from_toml_bytes(bytes: &Vec<u8>) -> (r: Result<AppConfig, AppError>)
        ensures
            match r {
                Ok(c) => {
                    &&& parse_config_doc(bytes@) is Some
                    &&& c@.config_version == parse_config_doc(bytes@)->Some_0.0
                    &&& c@.mappings == parsed_mappings(parse_config_doc(bytes@)->Some_0.1)
                    &&& mappings_validated(c@.mappings)
                },
                Err(e) => match e {
                    AppError::ConfigParse => parse_config_doc(bytes@) is None,
                    AppError::ConfigAbsoluteLink(p) => {
                        &&& parse_config_doc(bytes@) is Some
                        &&& p@.absolute
                        &&& parsed_mappings(parse_config_doc(bytes@)->Some_0.1).contains(p@)
                    },
                    AppError::ConfigNestedLinks(nested, parent) => ({
                        let pm = parsed_mappings(parse_config_doc(bytes@)->Some_0.1);
                        &&& parse_config_doc(bytes@) is Some
                        &&& exists|i: int, j: int|
                            0 <= i < pm.len() && 0 <= j < pm.len() && i != j && pm[i] == parent@
                                && pm[j] == nested@ && is_prefix(parent@, nested@)
                    }),
                    _ => false,
                },
            },
    {
        let ghost doc = parse_config_doc(bytes@);
        let fields = split_lines_exec(bytes);
        proof {
            assert forall|k: int|
                0 <= k < fields@.len() implies fields.deep_view()[k] == (#[trigger] fields@[k])@
            by {
                crate::paths::lemma_bytes_deep_view(fields@[k]);
            }
        }
        let ghost sf = fields.deep_view();
        let ghost lines = sf.drop_last();
        if fields.len() < 4 {
            return Err(AppError::ConfigParse);
        }
        let nf = fields.len();
        if fields[nf - 1].len() != 0 {
            proof {
                assert(sf.last().len() != 0);
            }
            return Err(AppError::ConfigParse);
        }
        proof {
            assert(sf.last().len() == 0);
            assert(lines[0] == sf[0]);
            assert(lines[1] == sf[1]);
        }
        let version = match parse_version_line_exec(&fields[0]) {
            Some(v) => v,
            None => {
                return Err(AppError::ConfigParse);
            },
        };
        let hdr = mappings_header_vec();
        if !bytes_eq(&fields[1], &hdr) {
            return Err(AppError::ConfigParse);
        }
        let nlines = nf - 1;
        proof {
            assert(lines.len() == nlines);
            assert(lines.last() == sf[nlines - 1]);
        }
        if fields[nlines - 1].len() != 1 {
            proof {
                if lines.last() == closing_line() {
                    assert(lines.last().len() == 1);
                }
            }
            return Err(AppError::ConfigParse);
        }
        if fields[nlines - 1][0] != 93 {
            proof {
                if lines.last() == closing_line() {
                    assert(lines.last()[0] == 93);
                }
            }
            return Err(AppError::ConfigParse);
        }
        proof {
            assert(lines.last() =~= closing_line());
        }
        let mut mappings: Vec<NormPath> = Vec::new();
        let mut i: usize = 2;
        while i < nlines - 1
            invariant
                2 <= i <= nlines - 1 || nlines - 1 < 2,
                2 <= i,
                nlines == sf.len() - 1,
                nlines >= 3,
                nlines == fields@.len() - 1,
                lines == sf.drop_last(),
                sf == fields.deep_view(),
                sf == split_lines(bytes@),
                forall|k: int|
                    0 <= k < fields@.len() ==> fields.deep_view()[k] == (#[trigger] fields@[k])@,
                forall|k: int|
                    2 <= k < i ==> parse_mapping_line(#[trigger] lines[k]) is Some,
                views_of(mappings@) == Seq::new(
                    (i - 2) as nat,
                    |w: int| crate::paths::parse_path(parse_mapping_line(lines[w + 2])->Some_0),
                ),
            decreases nlines - i,
        {
            proof {
                assert(lines[i as int] == sf[i as int]);
                assert(sf[i as int] == fields@[i as int]@);
            }
            match parse_mapping_line_exec(&fields[i]) {
                None => {
                    return Err(AppError::ConfigParse);
                },
                Some(b) => {
                    let m = NormPath::from_bytes(&b);
                    let ghost prev = views_of(mappings@);
                    mappings.push(m);
                    proof {
                        assert(views_of(mappings@) =~= prev.push(
                            crate::paths::parse_path(parse_mapping_line(lines[i as int])->Some_0),
                        ));
                        assert(views_of(mappings@) =~= Seq::new(
                            (i - 1) as nat,
                            |w: int| crate::paths::parse_path(
                                parse_mapping_line(lines[w + 2])->Some_0,
                            ),
                        ));
                    }
                },
            }
            i = i + 1;
        }
        let config = AppConfig { config_version: version, mappings };
        proof {
            assert(doc is Some) by {
                assert(sf.len() >= 4);
                assert(parse_version_line(lines[0]) is Some);
                assert(lines[1] == mappings_header());
                assert(lines.last() == closing_line());
                assert(forall|k: int|
                    2 <= k < lines.len() - 1 ==> parse_mapping_line(#[trigger] lines[k]) is Some);
            }
            assert(doc->Some_0.0 == version as int);
            assert(config@.mappings =~= views_of(config.mappings@));
            assert(config@.mappings =~= parsed_mappings(doc->Some_0.1)) by {
                assert(doc->Some_0.1 =~= Seq::new(
                    (lines.len() - 3) as nat,
                    |w: int| parse_mapping_line(lines[w + 2])->Some_0,
                ));
            }
        }
        match config.validate_absolute_mappings() {
            Err(e) => {
                proof {
                    assert(config@.mappings == parsed_mappings(doc->Some_0.1));
                }
                return Err(e);
            },
            Ok(_) => {},
        }
        match config.validate_nested_mappings() {
            Err(e) => {
                return Err(e);
            },
            Ok(_) => {},
        }
        proof {
            assert(mappings_wf(config@.mappings)) by {
                assert forall|k: int|
                    0 <= k < config@.mappings.len() implies path_wf(
                    #[trigger] config@.mappings[k],
                ) by {
                    crate::paths::lemma_parse_wf(doc->Some_0.1[k]);
                }
            }
        }
        Ok(config)
    }
}

/// Sorts mappings into the library's path order (selection sort): the
/// result holds the same paths, pairwise ordered.
fn sort_paths(input: &Vec<NormPath>) -> (r: Vec<NormPath>)
    ensures
        views_of(r@).to_multiset() == views_of(input@).to_multiset(),
        forall|j: int, k: int| 0 <= j < k < r@.len() ==> path_le(r@[j]@, r@[k]@),
{
    let mut rest: Vec<NormPath> = Vec::new();
    let mut i: usize = 0;
    while i < input.len()
        invariant
            0 <= i <= input@.len(),
            views_of(rest@) == views_of(input@).take(i as int),
        decreases input@.len() - i,
    {
        let ghost prev = rest@;
        rest.push(input[i].clone());
        proof {
            assert(views_of(rest@) =~= views_of(prev).push(input@[i as int]@));
            assert(views_of(prev).push(input@[i as int]@) =~= views_of(input@).take(i + 1));
        }
        i = i + 1;
    }
    proof {
        assert(views_of(input@).take(input@.len() as int) =~= views_of(input@));
    }
    let mut out: Vec<NormPath> = Vec::new();
    while rest.len() > 0
        invariant
            views_of(out@).to_multiset().add(views_of(rest@).to_multiset()) == views_of(
                input@,
            ).to_multiset(),
            forall|j: int, k: int| 0 <= j < k < out@.len() ==> path_le(out@[j]@, out@[k]@),
            forall|j: int, k: int|
                0 <= j < out@.len() && 0 <= k < rest@.len() ==> path_le(out@[j]@, rest@[k]@),
        decreases rest@.len(),
    {
        // Find the least remaining path.
        let mut m: usize = 0;
        let mut j: usize = 1;
        while j < rest.len()
            invariant
                0 <= m < j <= rest@.len(),
                forall|k: int| 0 <= k < j ==> path_le(rest@[m as int]@, (#[trigger] rest@[k])@),
            decreases rest@.len() - j,
        {
            if rest[j].le(&rest[m]) {
                proof {
                    assert forall|k: int| 0 <= k < j + 1 implies path_le(
                        rest@[j as int]@,
                        (#[trigger] rest@[k])@,
                    ) by {
                        if k < j {
                            lemma_path_le_transitive(rest@[j as int]@, rest@[m as int]@, rest@[k]@);
                        }
                    }
                }
                m = j;
            } else {
                proof {
                    lemma_path_le_total(rest@[m as int]@, rest@[j as int]@);
                }
            }
            j = j + 1;
        }
        let ghost old_rest = rest@;
        let ghost old_out = out@;
        let x = rest.remove(m);
        proof {
            assert(views_of(old_rest)[m as int] == x@);
            assert(views_of(old_rest).contains(x@));
            assert(views_of(old_rest).to_multiset().count(x@) > 0);
            assert(views_of(rest@) =~= views_of(old_rest).remove(m as int));
            assert(views_of(old_rest).remove(m as int).to_multiset() == views_of(
                old_rest,
            ).to_multiset().remove(x@));
        }
        out.push(x);
        proof {
            assert(views_of(out@) =~= views_of(old_out).push(x@));
            assert(views_of(old_out).push(x@).to_multiset() =~= views_of(
                old_out,
            ).to_multiset().insert(x@));
            assert(views_of(out@).to_multiset() == views_of(old_out).to_multiset().insert(x@));
            assert(views_of(out@).to_multiset().add(views_of(rest@).to_multiset()) =~= views_of(
                input@,
            ).to_multiset());
            // Every element left in rest sits somewhere in old_rest, so the
            // chosen minimum is below it.
            assert forall|k: int| 0 <= k < rest@.len() implies path_le(
                x@,
                (#[trigger] rest@[k])@,
            ) by {
                if k < m {
                    assert(rest@[k]@ == old_rest[k]@);
                } else {
                    assert(rest@[k]@ == old_rest[k + 1]@);
                }
            }
        }
    }
    proof {
        assert(views_of(rest@) =~= Seq::<PathModel>::empty());
        assert(views_of(rest@).to_multiset() =~= Multiset::<PathModel>::empty());
        assert(views_of(out@).to_multiset() =~= views_of(input@).to_multiset());
    }
    out
}

/// Whether some configured mapping equals `p`.
pub(crate) fn contains_path_in(ms: &Vec<NormPath>, p: &NormPath) -> (r: bool)
    ensures
        r == views_of(ms@).contains(p@),
{
    let mut i: usize = 0;
    while i < ms.len()
        invariant
            0 <= i <= ms@.len(),
            forall|k: int| 0 <= k < i ==> views_of(ms@)[k] != p@,
        decreases ms@.len() - i,
    {
        if ms[i].eq(p) {
            proof {
                assert(views_of(ms@)[i as int] == p@);
            }
            return true;
        }
        i = i + 1;
    }
    proof {
        if views_of(ms@).contains(p@) {
            let k = choose|k: int| 0 <= k < views_of(ms@).len() && views_of(ms@)[k] == p@;
            assert(views_of(ms@)[k] != p@);
        }
    }
    false
}

/// Whether some configured mapping equals `p` or lies below it.
pub(crate) fn any_mapping_extends(ms: &Vec<NormPath>, p: &NormPath) -> (r: bool)
    ensures
        r == crate::commands::status::on_path_to_mapping(views_of(ms@), p@),
{
    let mut i: usize = 0;
    while i < ms.len()
        invariant
            0 <= i <= ms@.len(),
            forall|k: int| 0 <= k < i ==> !is_prefix(p@, #[trigger] views_of(ms@)[k]),
        decreases ms@.len() - i,
    {
        if ms[i].starts_with(p) {
            proof {
                assert(is_prefix(p@, views_of(ms@)[i as int]));
            }
            return true;
        }
        i = i + 1;
    }
    false
}

impl AppConfig {
    /// Appends one new mapping; callers persist the configuration
    /// afterwards and are expected to have validated the addition.
    pub fn add_mapping(&mut self, mapping: NormPath)
        ensures
            final(self)@.config_version == old(self)@.config_version,
            final(self)@.mappings == old(self)@.mappings.push(mapping@),
    {
        self.mappings.push(mapping);
        proof {
            assert(self@.mappings =~= old(self)@.mappings.push(mapping@));
        }
    }

    /// Checks that every configured mapping is a relative path; an absolute
    /// mapping is reported as a configuration failure.
    pub fn validate_absolute_mappings(&self) -> (r: Result<(), AppError>)
        ensures
            match r {
                Ok(_) => mappings_relative(self@.mappings),
                Err(e) => match e {
                    AppError::ConfigAbsoluteLink(p) => exists|i: int|
                        0 <= i < self@.mappings.len() && self@.mappings[i] == p@ && p@.absolute,
                    _ => false,
                },
            },
    {
        let mut i: usize = 0;
        while i < self.mappings.len()
            invariant
                0 <= i <= self@.mappings.len(),
                self@.mappings.len() == self.mappings@.len(),
                forall|k: int| 0 <= k < i ==> !(#[trigger] self@.mappings[k]).absolute,
            decreases self@.mappings.len() - i,
        {
            if self.mappings[i].is_absolute() {
                let p = self.mappings[i].clone();
                proof {
                    assert(self@.mappings[i as int] == p@);
                }
                return Err(AppError::ConfigAbsoluteLink(p));
            }
            i = i + 1;
        }
        Ok(())
    }

    /// Checks that no configured mapping nests inside another (a directory
    /// to link containing a further entry to link): the mappings are
    /// sorted, which brings every nested pair next to each other, and each
    /// adjacent pair is then checked for a path-prefix relation. Succeeds
    /// exactly when no two mappings are in a prefix relation, whatever
    /// order they were inserted in; on failure the reported pair is a real
    /// nested-parent pair of the configuration.
    pub fn validate_nested_mappings(&self) -> (r: Result<(), AppError>)
        ensures
            match r {
                Ok(_) => !has_nested_pair(self@.mappings),
                Err(e) => match e {
                    AppError::ConfigNestedLinks(nested, parent) => exists|i: int, j: int|
                        0 <= i < self@.mappings.len() && 0 <= j < self@.mappings.len() && i != j
                            && self@.mappings[i] == parent@ && self@.mappings[j] == nested@
                            && is_prefix(parent@, nested@),
                    _ => false,
                },
            },
    {
        if self.mappings.len() == 0 {
            return Ok(());
        }
        let sorted = sort_paths(&self.mappings);
        let ghost sv = views_of(sorted@);
        let ghost mv = self@.mappings;
        proof {
            assert(mv =~= views_of(self.mappings@));
        }
        let mut i: usize = 1;
        while i < sorted.len()
            invariant
                1 <= i,
                i <= sv.len() || sv.len() == 0,
                sv.len() == sorted@.len(),
                sv == views_of(sorted@),
                mv == self@.mappings,
                sv.to_multiset() == mv.to_multiset(),
                forall|j: int, k: int| 0 <= j < k < sv.len() ==> path_le(sv[j], sv[k]),
                forall|k: int|
                    1 <= k < i && k < sv.len() ==> !is_prefix(#[trigger] sv[k - 1], sv[k]),
            decreases sv.len() - i,
        {
            if sorted[i].starts_with(&sorted[i - 1]) {
                proof {
                    lemma_pair_in_rearrangement(sv, mv, i - 1, i as int);
                }
                return Err(
                    AppError::ConfigNestedLinks(sorted[i].clone(), sorted[i - 1].clone()),
                );
            }
            i = i + 1;
        }
        proof {
            // No adjacent sorted pair is nested, hence no pair at all is:
            // anything sorted between a path and an extension of it is
            // itself an extension of that path.
            if has_nested_pair(mv) {
                lemma_nesting_insertion_order_irrelevant(mv, sv);
                let (a, b) = choose|a: int, b: int|
                    0 <= a < sv.len() && 0 <= b < sv.len() && a != b && is_prefix(sv[a], sv[b]);
                let lo = if a < b {
                    a
                } else {
                    b
                };
                let hi = if a < b {
                    b
                } else {
                    a
                };
                if b < a {
                    // sv[a] is a prefix of sv[b] but sorts after it: both
                    // orders hold at once, so the two paths are equal.
                    lemma_path_prefix_le(sv[a], sv[b]);
                    lemma_path_le_antisymmetric(sv[a], sv[b]);
                }
                assert(is_prefix(sv[lo], sv[hi]));
                lemma_path_prefix_le(sv[lo], sv[hi]);
                let adj = lo + 1;
                lemma_path_between_prefix(sv[lo], sv[adj], sv[hi]);
                assert(!is_prefix(sv[adj - 1], sv[adj]));
                assert(false);
            }
        }
        Ok(())
    }
}

} // verus!
