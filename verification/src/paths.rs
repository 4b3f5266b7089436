//! The path model: normalized paths as sequences of byte-string segments.
//!
//! A `NormPath` is the library's representation of a filesystem path. It
//! keeps an absolute-or-relative flag and the list of path segments; parsing
//! from raw bytes drops separator runs and current-directory markers, so two
//! paths are equal exactly when their normalized segment sequences (and
//! flags) are equal. Segment-wise prefix tests and the segment-wise
//! lexicographic order used for sorting and nesting checks live here too.

use vstd::prelude::*;

verus! {

/// The path separator byte, `/`.
pub const SEP_BYTE: u8 = 47;

/// The current-directory marker byte, `.`.
pub const DOT_BYTE: u8 = 46;

/// Mathematical model of a normalized path: whether it is absolute, and the
/// sequence of its segments.
#[verifier::ext_equal]
pub ghost struct PathModel {
    pub absolute: bool,
    pub segments: Seq<Seq<u8>>,
}

/// A byte string containing no separator byte.
pub open spec fn sep_free(s: Seq<u8>) -> bool {
    forall|i: int| 0 <= i < s.len() ==> s[i] != SEP_BYTE
}

/// A well-formed segment: nonempty, free of separators, and not the
/// current-directory marker.
pub open spec fn seg_wf(s: Seq<u8>) -> bool {
    &&& s.len() > 0
    &&& s != seq![DOT_BYTE]
    &&& sep_free(s)
}

/// A well-formed path model: every segment is well-formed.
pub open spec fn path_wf(p: PathModel) -> bool {
    forall|i: int| 0 <= i < p.segments.len() ==> seg_wf(#[trigger] p.segments[i])
}

/// `a` is a (not necessarily strict) segment-wise prefix of `b`. Both paths
/// must be rooted the same way; `a/b` is never a prefix of `/a/b/c`.
pub open spec fn is_prefix(a: PathModel, b: PathModel) -> bool {
    &&& a.absolute == b.absolute
    &&& a.segments.is_prefix_of(b.segments)
}

/// `a` is a strict segment-wise prefix of `b`.
pub open spec fn is_strict_prefix(a: PathModel, b: PathModel) -> bool {
    &&& is_prefix(a, b)
    &&& a.segments.len() < b.segments.len()
}

/// Byte-string lexicographic order, strict variant.
pub open spec fn bytes_lt(a: Seq<u8>, b: Seq<u8>) -> bool
    decreases a.len(),
{
    if b.len() == 0 {
        false
    } else if a.len() == 0 {
        true
    } else if a[0] < b[0] {
        true
    } else if b[0] < a[0] {
        false
    } else {
        bytes_lt(a.drop_first(), b.drop_first())
    }
}

/// Segment-sequence lexicographic order, strict variant. A strict prefix
/// sorts before its extensions; segments are compared bytewise.
pub open spec fn segs_lt(a: Seq<Seq<u8>>, b: Seq<Seq<u8>>) -> bool
    decreases a.len(),
{
    if b.len() == 0 {
        false
    } else if a.len() == 0 {
        true
    } else if a[0] == b[0] {
        segs_lt(a.drop_first(), b.drop_first())
    } else {
        bytes_lt(a[0], b[0])
    }
}

/// Strict order on paths: relative paths sort before absolute ones, then
/// segment sequences compare lexicographically.
pub open spec fn path_lt(a: PathModel, b: PathModel) -> bool {
    ||| (!a.absolute && b.absolute)
    ||| (a.absolute == b.absolute && segs_lt(a.segments, b.segments))
}

/// Reflexive closure of `path_lt`: the order the library sorts by.
pub open spec fn path_le(a: PathModel, b: PathModel) -> bool {
    a == b || path_lt(a, b)
}

/// Splitting raw bytes at every separator. Every input, even the empty one,
/// yields at least one (possibly empty) field.
pub open spec fn split_segs(s: Seq<u8>) -> Seq<Seq<u8>>
    decreases s.len(),
{
    if s.len() == 0 {
        seq![Seq::<u8>::empty()]
    } else if s[0] == SEP_BYTE {
        seq![Seq::<u8>::empty()] + split_segs(s.drop_first())
    } else {
        let rest = split_segs(s.drop_first());
        seq![seq![s[0]] + rest[0]] + rest.drop_first()
    }
}

/// Whether a raw field survives normalization: empty fields (from separator
/// runs or edges) and current-directory markers are dropped.
pub open spec fn seg_kept(s: Seq<u8>) -> bool {
    s.len() > 0 && s != seq![DOT_BYTE]
}

/// The subsequence of fields that survive normalization.
pub open spec fn kept_segs(ss: Seq<Seq<u8>>) -> Seq<Seq<u8>>
    decreases ss.len(),
{
    if ss.len() == 0 {
        Seq::empty()
    } else if seg_kept(ss[0]) {
        seq![ss[0]] + kept_segs(ss.drop_first())
    } else {
        kept_segs(ss.drop_first())
    }
}

/// Parsing raw path bytes into the normalized model: a leading separator
/// makes the path absolute, and the segments are the normalized fields.
pub open spec fn parse_path(s: Seq<u8>) -> PathModel {
    PathModel { absolute: s.len() > 0 && s[0] == SEP_BYTE, segments: kept_segs(split_segs(s)) }
}

/// Joining segments with separators.
pub open spec fn join_segs(ss: Seq<Seq<u8>>) -> Seq<u8>
    decreases ss.len(),
{
    if ss.len() == 0 {
        Seq::empty()
    } else if ss.len() == 1 {
        ss[0]
    } else {
        ss[0] + seq![SEP_BYTE] + join_segs(ss.drop_first())
    }
}

/// Rendering a path model back to bytes: a leading separator when absolute,
/// then the segments joined with separators.
pub open spec fn serialize_path(p: PathModel) -> Seq<u8> {
    if p.absolute {
        seq![SEP_BYTE] + join_segs(p.segments)
    } else {
        join_segs(p.segments)
    }
}

/// Joining two paths the way `status` and `add` resolve mapping-relative
/// locations: an absolute right-hand side replaces the left-hand side.
pub open spec fn path_join(a: PathModel, b: PathModel) -> PathModel {
    if b.absolute {
        b
    } else {
        PathModel { absolute: a.absolute, segments: a.segments + b.segments }
    }
}

/// Stripping a prefix, yielding the relative remainder.
pub open spec fn path_strip(p: PathModel, base: PathModel) -> PathModel {
    PathModel { absolute: false, segments: p.segments.skip(base.segments.len() as int) }
}

/// The bytewise order never relates a byte string to itself.
pub proof fn lemma_bytes_lt_irreflexive(a: Seq<u8>)
    ensures
        !bytes_lt(a, a),
    decreases a.len(),
{
    if a.len() > 0 {
        lemma_bytes_lt_irreflexive(a.drop_first());
    }
}

/// Two byte strings that the order relates in neither direction are equal.
pub proof fn lemma_bytes_lt_connected(a: Seq<u8>, b: Seq<u8>)
    requires
        !bytes_lt(a, b),
        !bytes_lt(b, a),
    ensures
        a == b,
    decreases a.len(),
{
    if a.len() == 0 || b.len() == 0 {
        assert(a =~= b);
    } else {
        assert(a[0] == b[0]);
        lemma_bytes_lt_connected(a.drop_first(), b.drop_first());
        assert(a.drop_first().len() == b.drop_first().len());
        assert(a.len() == b.len());
        assert forall|i: int| 0 <= i < a.len() implies a[i] == b[i] by {
            if i > 0 {
                assert(a[i] == a.drop_first()[i - 1]);
                assert(b[i] == b.drop_first()[i - 1]);
            }
        }
        assert(a =~= b);
    }
}

/// The bytewise order is transitive.
pub proof fn lemma_bytes_lt_transitive(a: Seq<u8>, b: Seq<u8>, c: Seq<u8>)
    requires
        bytes_lt(a, b),
        bytes_lt(b, c),
    ensures
        bytes_lt(a, c),
    decreases a.len(),
{
    if a.len() > 0 && b.len() > 0 && c.len() > 0 && a[0] == b[0] && b[0] == c[0] {
        lemma_bytes_lt_transitive(a.drop_first(), b.drop_first(), c.drop_first());
    }
}

/// The segment-sequence order never relates a sequence to itself.
pub proof fn lemma_segs_lt_irreflexive(a: Seq<Seq<u8>>)
    ensures
        !segs_lt(a, a),
    decreases a.len(),
{
    if a.len() > 0 {
        lemma_segs_lt_irreflexive(a.drop_first());
    }
}

/// Two segment sequences that the order relates in neither direction are
/// equal.
pub proof fn lemma_segs_lt_connected(a: Seq<Seq<u8>>, b: Seq<Seq<u8>>)
    requires
        !segs_lt(a, b),
        !segs_lt(b, a),
    ensures
        a == b,
    decreases a.len(),
{
    if a.len() == 0 || b.len() == 0 {
        assert(a =~= b);
    } else if a[0] == b[0] {
        lemma_segs_lt_connected(a.drop_first(), b.drop_first());
        assert(a.drop_first().len() == b.drop_first().len());
        assert(a.len() == b.len());
        assert forall|i: int| 0 <= i < a.len() implies a[i] == b[i] by {
            if i > 0 {
                assert(a[i] == a.drop_first()[i - 1]);
                assert(b[i] == b.drop_first()[i - 1]);
            }
        }
        assert(a =~= b);
    } else {
        lemma_bytes_lt_connected(a[0], b[0]);
        assert(false);
    }
}

/// The segment-sequence order is transitive.
pub proof fn lemma_segs_lt_transitive(a: Seq<Seq<u8>>, b: Seq<Seq<u8>>, c: Seq<Seq<u8>>)
    requires
        segs_lt(a, b),
        segs_lt(b, c),
    ensures
        segs_lt(a, c),
    decreases a.len(),
{
    if a.len() == 0 {
        // c is nonempty because segs_lt(b, c) holds.
    } else {
        // All three are nonempty here.
        if a[0] == b[0] && b[0] == c[0] {
            lemma_segs_lt_transitive(a.drop_first(), b.drop_first(), c.drop_first());
        } else if a[0] == b[0] {
            // segs_lt(b, c) goes through bytes_lt(b[0], c[0]).
            assert(bytes_lt(a[0], c[0]));
        } else if b[0] == c[0] {
            assert(bytes_lt(a[0], c[0]));
        } else {
            lemma_bytes_lt_transitive(a[0], b[0], c[0]);
            if a[0] == c[0] {
                lemma_bytes_lt_irreflexive(a[0]);
            }
        }
    }
}

/// A prefix of a segment sequence sorts no later than the sequence itself.
pub proof fn lemma_segs_prefix_le(a: Seq<Seq<u8>>, b: Seq<Seq<u8>>)
    requires
        a.is_prefix_of(b),
    ensures
        a == b || segs_lt(a, b),
    decreases a.len(),
{
    if a.len() == 0 {
        if b.len() == 0 {
            assert(a =~= b);
        }
    } else {
        assert(a[0] == b[0]);
        assert(a.drop_first().is_prefix_of(b.drop_first())) by {
            assert(a.drop_first() =~= b.drop_first().subrange(0, a.len() - 1));
        }
        lemma_segs_prefix_le(a.drop_first(), b.drop_first());
        if a.drop_first() == b.drop_first() {
            assert(a =~= b);
        }
    }
}

/// Anything sorting between a sequence and one of its extensions also
/// extends that sequence. This is what makes the sorted adjacent-pair
/// nesting check equivalent to the all-pairs check.
pub proof fn lemma_segs_between_prefix(a: Seq<Seq<u8>>, c: Seq<Seq<u8>>, b: Seq<Seq<u8>>)
    requires
        a == c || segs_lt(a, c),
        c == b || segs_lt(c, b),
        a.is_prefix_of(b),
    ensures
        a.is_prefix_of(c),
    decreases a.len(),
{
    if a == c {
        assert(a.is_prefix_of(c));
    } else if c == b {
        assert(a.is_prefix_of(c));
    } else if a.len() == 0 {
        assert(a =~= c.subrange(0, 0));
    } else {
        // segs_lt(a, c) and segs_lt(c, b) both hold and a is nonempty,
        // hence b and c are nonempty too, and b[0] == a[0].
        assert(b[0] == a[0]);
        if a[0] == c[0] {
            assert(a.drop_first().is_prefix_of(b.drop_first())) by {
                assert(a.drop_first() =~= b.drop_first().subrange(0, a.len() - 1));
            }
            lemma_segs_between_prefix(a.drop_first(), c.drop_first(), b.drop_first());
            assert forall|i: int| 0 <= i < a.len() implies a[i] == c[i] by {
                if i > 0 {
                    assert(a[i] == a.drop_first()[i - 1]);
                    assert(a.drop_first()[i - 1] == c.drop_first().subrange(
                        0,
                        a.len() - 1,
                    )[i - 1]);
                    assert(c[i] == c.drop_first()[i - 1]);
                }
            }
            assert(a =~= c.subrange(0, a.len() as int));
        } else {
            // bytes_lt(a[0], c[0]); on the other side either c[0] == b[0],
            // contradicting a[0] != c[0], or bytes_lt(c[0], b[0]), which
            // closes a cycle below a[0].
            if c[0] == b[0] {
                assert(false);
            } else {
                lemma_bytes_lt_transitive(a[0], c[0], b[0]);
                lemma_bytes_lt_irreflexive(a[0]);
                assert(false);
            }
        }
    }
}

/// Splitting always yields at least one field.
pub proof fn lemma_split_segs_len(s: Seq<u8>)
    ensures
        split_segs(s).len() >= 1,
    decreases s.len(),
{
    if s.len() > 0 {
        lemma_split_segs_len(s.drop_first());
    }
}

/// Splitting a separator-free byte string yields exactly that string.
pub proof fn lemma_split_sep_free(s: Seq<u8>)
    requires
        sep_free(s),
    ensures
        split_segs(s) == seq![s],
    decreases s.len(),
{
    if s.len() == 0 {
        assert(split_segs(s) =~~= seq![s]);
    } else {
        assert(sep_free(s.drop_first()));
        lemma_split_sep_free(s.drop_first());
        lemma_split_segs_len(s.drop_first());
        assert(seq![s[0]] + s.drop_first() =~= s);
        assert(split_segs(s) =~~= seq![s]);
    }
}

/// Splitting after a separator-free field and a separator peels that field
/// off the front.
pub proof fn lemma_split_prepend(c: Seq<u8>, r: Seq<u8>)
    requires
        sep_free(c),
    ensures
        split_segs(c + seq![SEP_BYTE] + r) == seq![c] + split_segs(r),
    decreases c.len(),
{
    let s = c + seq![SEP_BYTE] + r;
    if c.len() == 0 {
        assert(s[0] == SEP_BYTE);
        assert(s.drop_first() =~= r);
        assert(split_segs(s) =~~= seq![c] + split_segs(r));
    } else {
        assert(s[0] == c[0]);
        assert(s[0] != SEP_BYTE);
        assert(sep_free(c.drop_first()));
        assert(s.drop_first() =~= c.drop_first() + seq![SEP_BYTE] + r);
        lemma_split_prepend(c.drop_first(), r);
        lemma_split_segs_len(r);
        let rest = split_segs(s.drop_first());
        assert(rest == seq![c.drop_first()] + split_segs(r));
        assert(seq![s[0]] + rest[0] =~= c);
        assert(rest.drop_first() =~= split_segs(r));
        assert(split_segs(s) =~~= seq![c] + split_segs(r));
    }
}

/// Normalization distributes over concatenation of field sequences.
pub proof fn lemma_kept_concat(x: Seq<Seq<u8>>, y: Seq<Seq<u8>>)
    ensures
        kept_segs(x + y) == kept_segs(x) + kept_segs(y),
    decreases x.len(),
{
    if x.len() == 0 {
        assert(x + y =~= y);
        assert(kept_segs(x) + kept_segs(y) =~= kept_segs(y));
    } else {
        assert((x + y)[0] == x[0]);
        assert((x + y).drop_first() =~= x.drop_first() + y);
        lemma_kept_concat(x.drop_first(), y);
        if seg_kept(x[0]) {
            assert(kept_segs(x + y) =~~= kept_segs(x) + kept_segs(y));
        } else {
            assert(kept_segs(x + y) =~~= kept_segs(x) + kept_segs(y));
        }
    }
}

/// Normalization of a single field keeps or drops exactly that field.
pub proof fn lemma_kept_singleton(x: Seq<u8>)
    ensures
        seg_kept(x) ==> kept_segs(seq![x]) == seq![x],
        !seg_kept(x) ==> kept_segs(seq![x]) == Seq::<Seq<u8>>::empty(),
{
    assert(seq![x].drop_first() =~= Seq::<Seq<u8>>::empty());
    assert(kept_segs(Seq::<Seq<u8>>::empty()) == Seq::<Seq<u8>>::empty());
    if seg_kept(x) {
        assert(kept_segs(seq![x]) =~= seq![x]);
    }
}

/// Every field produced by splitting is separator-free.
pub proof fn lemma_split_fields_sep_free(s: Seq<u8>)
    ensures
        forall|i: int|
            0 <= i < split_segs(s).len() ==> sep_free(#[trigger] split_segs(s)[i]),
    decreases s.len(),
{
    if s.len() == 0 {
        assert(sep_free(split_segs(s)[0]));
    } else if s[0] == SEP_BYTE {
        lemma_split_fields_sep_free(s.drop_first());
        let rest = split_segs(s.drop_first());
        assert forall|i: int|
            0 <= i < split_segs(s).len() implies sep_free(#[trigger] split_segs(s)[i]) by {
            if i > 0 {
                assert(split_segs(s)[i] == rest[i - 1]);
            }
        }
    } else {
        lemma_split_fields_sep_free(s.drop_first());
        lemma_split_segs_len(s.drop_first());
        let rest = split_segs(s.drop_first());
        assert forall|i: int|
            0 <= i < split_segs(s).len() implies sep_free(#[trigger] split_segs(s)[i]) by {
            if i == 0 {
                assert(sep_free(rest[0]));
                assert forall|j: int|
                    0 <= j < (seq![seq![s[0]] + rest[0]])[0].len() implies (seq![
                    seq![s[0]] + rest[0],
                ])[0][j] != SEP_BYTE by {
                    if j > 0 {
                        assert((seq![s[0]] + rest[0])[j] == rest[0][j - 1]);
                    }
                }
            } else {
                assert(split_segs(s)[i] == rest[i]);
            }
        }
    }
}

/// Every segment surviving normalization of separator-free fields is
/// well-formed.
pub proof fn lemma_kept_wf(ss: Seq<Seq<u8>>)
    requires
        forall|i: int| 0 <= i < ss.len() ==> sep_free(#[trigger] ss[i]),
    ensures
        forall|i: int| 0 <= i < kept_segs(ss).len() ==> seg_wf(#[trigger] kept_segs(ss)[i]),
    decreases ss.len(),
{
    if ss.len() > 0 {
        assert(forall|i: int|
            0 <= i < ss.drop_first().len() ==> sep_free(#[trigger] ss.drop_first()[i]));
        lemma_kept_wf(ss.drop_first());
        if seg_kept(ss[0]) {
            assert(sep_free(ss[0]));
            assert forall|i: int|
                0 <= i < kept_segs(ss).len() implies seg_wf(#[trigger] kept_segs(ss)[i]) by {
                if i > 0 {
                    assert(kept_segs(ss)[i] == kept_segs(ss.drop_first())[i - 1]);
                }
            }
        }
    }
}

/// Every parsed path is well-formed.
pub proof fn lemma_parse_wf(s: Seq<u8>)
    ensures
        path_wf(parse_path(s)),
{
    lemma_split_fields_sep_free(s);
    lemma_kept_wf(split_segs(s));
}

/// Joining one or more segments starts with the first segment's first byte.
pub proof fn lemma_join_first_byte(ss: Seq<Seq<u8>>)
    requires
        ss.len() > 0,
        ss[0].len() > 0,
    ensures
        join_segs(ss).len() > 0,
        join_segs(ss)[0] == ss[0][0],
    decreases ss.len(),
{
}

/// Rendering well-formed segments and splitting the result again is the
/// identity.
pub proof fn lemma_split_join_segs(ss: Seq<Seq<u8>>)
    requires
        forall|i: int| 0 <= i < ss.len() ==> seg_wf(#[trigger] ss[i]),
    ensures
        kept_segs(split_segs(join_segs(ss))) == ss,
    decreases ss.len(),
{
    if ss.len() == 0 {
        lemma_kept_singleton(Seq::<u8>::empty());
        assert(kept_segs(split_segs(join_segs(ss))) =~~= ss);
    } else if ss.len() == 1 {
        assert(seg_wf(ss[0]));
        lemma_split_sep_free(ss[0]);
        lemma_kept_singleton(ss[0]);
        assert(seq![ss[0]] =~~= ss);
    } else {
        let rest = ss.drop_first();
        assert(forall|i: int| 0 <= i < rest.len() ==> seg_wf(#[trigger] rest[i]));
        lemma_split_join_segs(rest);
        assert(seg_wf(ss[0]));
        lemma_split_prepend(ss[0], join_segs(rest));
        lemma_kept_concat(seq![ss[0]], split_segs(join_segs(rest)));
        lemma_kept_singleton(ss[0]);
        assert(seq![ss[0]] + rest =~= ss);
        assert(kept_segs(split_segs(join_segs(ss))) =~~= ss);
    }
}

/// Round trip: rendering a well-formed path and parsing the result yields
/// the path back.
pub proof fn lemma_parse_serialize_roundtrip(p: PathModel)
    requires
        path_wf(p),
    ensures
        parse_path(serialize_path(p)) == p,
{
    lemma_split_join_segs(p.segments);
    let j = join_segs(p.segments);
    if p.absolute {
        let s = seq![SEP_BYTE] + j;
        assert(s[0] == SEP_BYTE);
        assert(s.drop_first() =~= j);
        assert(split_segs(s) == seq![Seq::<u8>::empty()] + split_segs(j));
        lemma_kept_concat(seq![Seq::<u8>::empty()], split_segs(j));
        lemma_kept_singleton(Seq::<u8>::empty());
        assert(kept_segs(split_segs(s)) =~~= p.segments);
        assert(parse_path(serialize_path(p)) =~= p);
    } else {
        if p.segments.len() == 0 {
            assert(kept_segs(split_segs(j)) =~~= p.segments);
            assert(parse_path(serialize_path(p)) =~= p);
        } else {
            assert(seg_wf(p.segments[0]));
            lemma_join_first_byte(p.segments);
            assert(j[0] != SEP_BYTE);
            assert(parse_path(serialize_path(p)) =~= p);
        }
    }
}

/// Parsing ignores a leading current-directory marker on a relative path.
pub proof fn lemma_parse_dot_slash(s: Seq<u8>)
    requires
        s.len() == 0 || s[0] != SEP_BYTE,
    ensures
        parse_path(seq![DOT_BYTE, SEP_BYTE] + s) == parse_path(s),
{
    let t = seq![DOT_BYTE, SEP_BYTE] + s;
    assert(seq![DOT_BYTE] + seq![SEP_BYTE] + s =~= t);
    assert(sep_free(seq![DOT_BYTE]));
    lemma_split_prepend(seq![DOT_BYTE], s);
    lemma_kept_concat(seq![seq![DOT_BYTE]], split_segs(s));
    lemma_kept_singleton(seq![DOT_BYTE]);
    assert(parse_path(t) =~= parse_path(s));
}

/// The path order is total.
pub proof fn lemma_path_le_total(a: PathModel, b: PathModel)
    ensures
        path_le(a, b) || path_le(b, a),
{
    if a.absolute == b.absolute {
        if !segs_lt(a.segments, b.segments) && !segs_lt(b.segments, a.segments) {
            lemma_segs_lt_connected(a.segments, b.segments);
            assert(a =~= b);
        }
    }
}

/// The path order is antisymmetric.
pub proof fn lemma_path_le_antisymmetric(a: PathModel, b: PathModel)
    requires
        path_le(a, b),
        path_le(b, a),
    ensures
        a == b,
{
    if a != b {
        lemma_segs_lt_transitive(a.segments, b.segments, a.segments);
        lemma_segs_lt_irreflexive(a.segments);
    }
}

/// The path order is transitive.
pub proof fn lemma_path_le_transitive(a: PathModel, b: PathModel, c: PathModel)
    requires
        path_le(a, b),
        path_le(b, c),
    ensures
        path_le(a, c),
{
    if a != b && b != c {
        if a.absolute == b.absolute && b.absolute == c.absolute {
            lemma_segs_lt_transitive(a.segments, b.segments, c.segments);
        }
    }
}

/// A path prefix sorts no later than its extension.
pub proof fn lemma_path_prefix_le(a: PathModel, b: PathModel)
    requires
        is_prefix(a, b),
    ensures
        path_le(a, b),
{
    lemma_segs_prefix_le(a.segments, b.segments);
    if a.segments == b.segments {
        assert(a =~= b);
    }
}

/// Anything sorting between a path and one of its extensions also extends
/// that path.
pub proof fn lemma_path_between_prefix(a: PathModel, c: PathModel, b: PathModel)
    requires
        path_le(a, c),
        path_le(c, b),
        is_prefix(a, b),
    ensures
        is_prefix(a, c),
{
    if a == c {
    } else if c == b {
    } else {
        // The flags all agree: a flag below c's and c's below b's forces
        // a.absolute == b.absolute to sandwich c.absolute.
        assert(c.absolute == a.absolute);
        lemma_segs_between_prefix(a.segments, c.segments, b.segments);
    }
}

/// Path prefixing is reflexive.
pub proof fn lemma_prefix_refl(a: PathModel)
    ensures
        is_prefix(a, a),
{
    assert(a.segments =~= a.segments.subrange(0, a.segments.len() as int));
}

/// Path prefixing is transitive.
pub proof fn lemma_prefix_transitive(a: PathModel, b: PathModel, c: PathModel)
    requires
        is_prefix(a, b),
        is_prefix(b, c),
    ensures
        is_prefix(a, c),
{
    assert forall|i: int| 0 <= i < a.segments.len() implies a.segments[i] == c.segments[i] by {
        assert(a.segments[i] == b.segments.subrange(0, a.segments.len() as int)[i]);
        assert(b.segments[i] == c.segments.subrange(0, b.segments.len() as int)[i]);
    }
    assert(a.segments =~= c.segments.subrange(0, a.segments.len() as int));
}

/// Two prefixes of one path are prefix-ordered by their lengths.
pub proof fn lemma_prefix_narrow(x: PathModel, p: PathModel, c: PathModel)
    requires
        is_prefix(x, c),
        is_prefix(p, c),
        x.segments.len() <= p.segments.len(),
    ensures
        is_prefix(x, p),
{
    assert forall|i: int| 0 <= i < x.segments.len() implies x.segments[i] == p.segments[i] by {
        assert(x.segments[i] == c.segments.subrange(0, x.segments.len() as int)[i]);
        assert(p.segments[i] == c.segments.subrange(0, p.segments.len() as int)[i]);
    }
    assert(x.segments =~= p.segments.subrange(0, x.segments.len() as int));
}

/// A prefix of the same length is the path itself.
pub proof fn lemma_prefix_same_len_eq(a: PathModel, b: PathModel)
    requires
        is_prefix(a, b),
        a.segments.len() == b.segments.len(),
    ensures
        a == b,
{
    assert(b.segments.subrange(0, b.segments.len() as int) =~= b.segments);
    assert(a =~= b);
}

/// The bytewise order is insensitive to dropping an equal front part.
pub proof fn lemma_bytes_lt_skip(a: Seq<u8>, b: Seq<u8>, j: int)
    requires
        0 <= j <= a.len(),
        j <= b.len(),
        forall|k: int| 0 <= k < j ==> a[k] == b[k],
    ensures
        bytes_lt(a, b) == bytes_lt(a.skip(j), b.skip(j)),
    decreases j,
{
    if j == 0 {
        assert(a.skip(0) =~= a);
        assert(b.skip(0) =~= b);
    } else {
        assert(a[0] == b[0]);
        assert(a.drop_first().skip(j - 1) =~= a.skip(j));
        assert(b.drop_first().skip(j - 1) =~= b.skip(j));
        assert(forall|k: int| 0 <= k < j - 1 ==> a.drop_first()[k] == b.drop_first()[k]);
        lemma_bytes_lt_skip(a.drop_first(), b.drop_first(), j - 1);
    }
}

/// The segment order is insensitive to dropping an equal front part.
pub proof fn lemma_segs_lt_skip(a: Seq<Seq<u8>>, b: Seq<Seq<u8>>, j: int)
    requires
        0 <= j <= a.len(),
        j <= b.len(),
        forall|k: int| 0 <= k < j ==> a[k] == b[k],
    ensures
        segs_lt(a, b) == segs_lt(a.skip(j), b.skip(j)),
    decreases j,
{
    if j == 0 {
        assert(a.skip(0) =~= a);
        assert(b.skip(0) =~= b);
    } else {
        assert(a[0] == b[0]);
        assert(a.drop_first().skip(j - 1) =~= a.skip(j));
        assert(b.drop_first().skip(j - 1) =~= b.skip(j));
        assert(forall|k: int| 0 <= k < j - 1 ==> a.drop_first()[k] == b.drop_first()[k]);
        lemma_segs_lt_skip(a.drop_first(), b.drop_first(), j - 1);
    }
}

/// Identity of byte deep views.
pub proof fn lemma_bytes_deep_view(v: Vec<u8>)
    ensures
        v.deep_view() == v@,
{
    assert(v.deep_view() =~= v@);
}

/// A normalized path value: the executable counterpart of `PathModel`.
/// Segments are stored as raw byte strings, so any filename the operating
/// system can produce is representable.
#[derive(Debug)]
pub struct NormPath {
    pub absolute: bool,
    pub segments: Vec<Vec<u8>>,
}

impl View for NormPath {
    type V = PathModel;

    open spec fn view(&self) -> PathModel {
        PathModel { absolute: self.absolute, segments: self.segments.deep_view() }
    }
}

/// The outcome of a three-way comparison.
pub enum SegCmp {
    Less,
    Equal,
    Greater,
}

/// Three-way bytewise comparison of two segments.
fn bytes_cmp(a: &Vec<u8>, b: &Vec<u8>) -> (r: SegCmp)
    ensures
        r is Less <==> bytes_lt(a@, b@),
        r is Equal <==> a@ == b@,
        r is Greater <==> bytes_lt(b@, a@),
{
    proof {
        lemma_bytes_lt_irreflexive(a@);
        lemma_bytes_lt_irreflexive(b@);
    }
    let mut i: usize = 0;
    loop
        invariant
            0 <= i <= a@.len(),
            i <= b@.len(),
            forall|k: int| 0 <= k < i ==> a@[k] == b@[k],
        decreases a@.len() - i,
    {
        proof {
            lemma_bytes_lt_skip(a@, b@, i as int);
            lemma_bytes_lt_skip(b@, a@, i as int);
        }
        if i == a.len() || i == b.len() {
            if a.len() == b.len() {
                proof {
                    assert(a@ =~= b@);
                }
                return SegCmp::Equal;
            } else if a.len() < b.len() {
                proof {
                    assert(a@.skip(i as int).len() == 0);
                    assert(b@.skip(i as int).len() > 0);
                    assert(a@.len() != b@.len());
                }
                return SegCmp::Less;
            } else {
                proof {
                    assert(b@.skip(i as int).len() == 0);
                    assert(a@.skip(i as int).len() > 0);
                    assert(a@.len() != b@.len());
                }
                return SegCmp::Greater;
            }
        }
        let x = a[i];
        let y = b[i];
        if x < y {
            proof {
                assert(a@.skip(i as int)[0] == a@[i as int]);
                assert(b@.skip(i as int)[0] == b@[i as int]);
                assert(bytes_lt(a@, b@));
                if bytes_lt(b@, a@) {
                    lemma_bytes_lt_transitive(a@, b@, a@);
                }
                assert(a@[i as int] != b@[i as int]);
            }
            return SegCmp::Less;
        } else if y < x {
            proof {
                assert(a@.skip(i as int)[0] == a@[i as int]);
                assert(b@.skip(i as int)[0] == b@[i as int]);
                assert(bytes_lt(b@, a@));
                if bytes_lt(a@, b@) {
                    lemma_bytes_lt_transitive(a@, b@, a@);
                }
                assert(a@[i as int] != b@[i as int]);
            }
            return SegCmp::Greater;
        }
        i = i + 1;
    }
}

/// Copies one segment.
pub(crate) fn clone_bytes(v: &Vec<u8>) -> (r: Vec<u8>)
    ensures
        r@ == v@,
{
    let mut r: Vec<u8> = Vec::new();
    let mut i: usize = 0;
    while i < v.len()
        invariant
            0 <= i <= v@.len(),
            r@ == v@.take(i as int),
        decreases v@.len() - i,
    {
        r.push(v[i]);
        proof {
            assert(r@ =~= v@.take(i + 1));
        }
        i = i + 1;
    }
    proof {
        assert(v@.take(v@.len() as int) =~= v@);
    }
    r
}

/// Copies a segment list.
fn clone_segs(v: &Vec<Vec<u8>>) -> (r: Vec<Vec<u8>>)
    ensures
        r.deep_view() == v.deep_view(),
{
    let mut r: Vec<Vec<u8>> = Vec::new();
    let mut i: usize = 0;
    while i < v.len()
        invariant
            0 <= i <= v@.len(),
            r.deep_view() == v.deep_view().take(i as int),
        decreases v@.len() - i,
    {
        let s = clone_bytes(&v[i]);
        proof {
            lemma_bytes_deep_view(s);
            lemma_bytes_deep_view(v@[i as int]);
        }
        let ghost prevs = r.deep_view();
        r.push(s);
        proof {
            assert(r.deep_view() =~= prevs.push(s@));
            assert(prevs.push(s@) =~= v.deep_view().take(i + 1));
        }
        i = i + 1;
    }
    proof {
        assert(v.deep_view().take(v@.len() as int) =~= v.deep_view());
    }
    r
}

impl Clone for NormPath {
    /// Cloning keeps the path value.
    fn clone(&self) -> (r: NormPath)
        ensures
            r@ == self@,
    {
        NormPath { absolute: self.absolute, segments: clone_segs(&self.segments) }
    }
}

impl NormPath {
    /// Whether every stored segment is well-formed.
    pub open spec fn wf(&self) -> bool {
        path_wf(self@)
    }

    /// The empty relative path, the starting point of repository traversal.
    pub fn empty() -> (r: NormPath)
        ensures
            r@ == (PathModel { absolute: false, segments: Seq::<Seq<u8>>::empty() }),
            r.wf(),
    {
        let r = NormPath { absolute: false, segments: Vec::new() };
        proof {
            assert(r@.segments =~= Seq::<Seq<u8>>::empty());
        }
        r
    }

    /// The number of segments.
    pub fn seg_count(&self) -> (r: usize)
        ensures
            r == self@.segments.len(),
    {
        self.segments.len()
    }

    /// Whether the path is absolute.
    pub fn is_absolute(&self) -> (r: bool)
        ensures
            r == self@.absolute,
    {
        self.absolute
    }

    /// Parses raw path bytes into a normalized path: a leading separator
    /// marks the path absolute; empty fields and current-directory markers
    /// are dropped.
    pub fn from_bytes(bytes: &Vec<u8>) -> (r: NormPath)
        ensures
            r@ == parse_path(bytes@),
            r.wf(),
    {
        let absolute = bytes.len() > 0 && bytes[0] == SEP_BYTE;
        let mut segments: Vec<Vec<u8>> = Vec::new();
        let mut cur: Vec<u8> = Vec::new();
        let mut i: usize = 0;
        proof {
            assert(cur@ + bytes@.skip(0) =~= bytes@);
        }
        while i < bytes.len()
            invariant
                0 <= i <= bytes@.len(),
                sep_free(cur@),
                kept_segs(split_segs(bytes@)) == segments.deep_view() + kept_segs(
                    split_segs(cur@ + bytes@.skip(i as int)),
                ),
            decreases bytes@.len() - i,
        {
            let b = bytes[i];
            let ghost prev_cur = cur@;
            let ghost prev_segs = segments.deep_view();
            if b == SEP_BYTE {
                proof {
                    assert(prev_cur + bytes@.skip(i as int) =~= prev_cur + seq![SEP_BYTE]
                        + bytes@.skip(i + 1));
                    lemma_split_prepend(prev_cur, bytes@.skip(i + 1));
                    lemma_kept_concat(seq![prev_cur], split_segs(bytes@.skip(i + 1)));
                    lemma_kept_singleton(prev_cur);
                }
                if keep_segment(&cur) {
                    segments.push(cur);
                    proof {
                        lemma_bytes_deep_view(cur);
                        assert(segments.deep_view() =~= prev_segs.push(prev_cur));
                        assert(prev_segs + seq![prev_cur] =~= segments.deep_view());
                    }
                } else {
                    proof {
                        assert(prev_segs + Seq::<Seq<u8>>::empty() =~= prev_segs);
                    }
                }
                cur = Vec::new();
                proof {
                    assert(cur@ =~= Seq::<u8>::empty());
                    assert(cur@ + bytes@.skip(i + 1) =~= bytes@.skip(i + 1));
                }
            } else {
                cur.push(b);
                proof {
                    assert(cur@ + bytes@.skip(i + 1) =~= prev_cur + bytes@.skip(i as int));
                }
            }
            i = i + 1;
        }
        proof {
            assert(cur@ + bytes@.skip(bytes@.len() as int) =~= cur@);
            lemma_split_sep_free(cur@);
            lemma_kept_singleton(cur@);
        }
        let ghost prev_segs = segments.deep_view();
        if keep_segment(&cur) {
            proof {
                lemma_bytes_deep_view(cur);
            }
            let ghost last = cur@;
            segments.push(cur);
            proof {
                assert(segments.deep_view() =~= prev_segs + seq![last]);
            }
        } else {
            proof {
                assert(prev_segs + Seq::<Seq<u8>>::empty() =~= prev_segs);
            }
        }
        let r = NormPath { absolute, segments };
        proof {
            assert(r@ =~= parse_path(bytes@));
            lemma_parse_wf(bytes@);
        }
        r
    }

    /// Renders the path back to bytes: segments joined by separators, with
    /// a leading separator when the path is absolute.
    pub fn to_bytes(&self) -> (r: Vec<u8>)
        ensures
            r@ == serialize_path(self@),
    {
        let mut out: Vec<u8> = Vec::new();
        if self.absolute {
            out.push(SEP_BYTE);
        }
        let ghost lead: Seq<u8> = if self.absolute {
            seq![SEP_BYTE]
        } else {
            Seq::empty()
        };
        proof {
            assert(out@ =~= lead + join_segs(self@.segments.take(0)));
        }
        let mut i: usize = 0;
        while i < self.segments.len()
            invariant
                0 <= i <= self@.segments.len(),
                self@.segments == self.segments.deep_view(),
                lead == if self.absolute {
                    seq![SEP_BYTE]
                } else {
                    Seq::<u8>::empty()
                },
                out@ == lead + join_segs(self@.segments.take(i as int)),
            decreases self@.segments.len() - i,
        {
            let ghost prev = out@;
            if i > 0 {
                out.push(SEP_BYTE);
            }
            let seg = &self.segments[i];
            let mut j: usize = 0;
            let ghost mid = out@;
            while j < seg.len()
                invariant
                    0 <= j <= seg@.len(),
                    out@ == mid + seg@.take(j as int),
                decreases seg@.len() - j,
            {
                out.push(seg[j]);
                proof {
                    assert(out@ =~= mid + seg@.take(j + 1));
                }
                j = j + 1;
            }
            proof {
                lemma_bytes_deep_view(self.segments@[i as int]);
                assert(seg@ == self@.segments[i as int]);
                assert(seg@.take(seg@.len() as int) =~= seg@);
                lemma_join_take_snoc(self@.segments, i as int);
                if i == 0 {
                    assert(out@ =~= lead + join_segs(self@.segments.take(i + 1)));
                } else {
                    assert(out@ =~= lead + join_segs(self@.segments.take(i + 1)));
                }
            }
            i = i + 1;
        }
        proof {
            assert(self@.segments.take(self@.segments.len() as int) =~= self@.segments);
        }
        out
    }

    /// Whether `base` is a segment-wise prefix of this path.
    pub fn starts_with(&self, base: &NormPath) -> (r: bool)
        ensures
            r == is_prefix(base@, self@),
    {
        if self.absolute != base.absolute {
            return false;
        }
        if base.segments.len() > self.segments.len() {
            return false;
        }
        let mut i: usize = 0;
        while i < base.segments.len()
            invariant
                0 <= i <= base@.segments.len(),
                base@.segments.len() <= self@.segments.len(),
                forall|k: int| 0 <= k < i ==> base@.segments[k] == self@.segments[k],
            decreases base@.segments.len() - i,
        {
            match bytes_cmp(&base.segments[i], &self.segments[i]) {
                SegCmp::Equal => {
                    proof {
                        lemma_bytes_deep_view(base.segments@[i as int]);
                        lemma_bytes_deep_view(self.segments@[i as int]);
                    }
                }
                _ => {
                    proof {
                        lemma_bytes_deep_view(base.segments@[i as int]);
                        lemma_bytes_deep_view(self.segments@[i as int]);
                        assert(base@.segments[i as int] != self@.segments[i as int]);
                        if base@.segments.is_prefix_of(self@.segments) {
                            assert(base@.segments[i as int] == self@.segments.subrange(
                                0,
                                base@.segments.len() as int,
                            )[i as int]);
                        }
                    }
                    return false;
                }
            }
            i = i + 1;
        }
        proof {
            assert(base@.segments =~= self@.segments.subrange(0, base@.segments.len() as int));
        }
        true
    }

    /// Joins a further path onto this one; an absolute right-hand side
    /// replaces the left-hand side, mirroring how operating systems join
    /// paths.
    pub fn join(&self, other: &NormPath) -> (r: NormPath)
        ensures
            r@ == path_join(self@, other@),
    {
        if other.absolute {
            other.clone()
        } else {
            let mut segments = clone_segs(&self.segments);
            let mut i: usize = 0;
            while i < other.segments.len()
                invariant
                    0 <= i <= other@.segments.len(),
                    segments.deep_view() == self@.segments + other@.segments.take(i as int),
                decreases other@.segments.len() - i,
            {
                let s = clone_bytes(&other.segments[i]);
                proof {
                    lemma_bytes_deep_view(s);
                    lemma_bytes_deep_view(other.segments@[i as int]);
                }
                let ghost prevs = segments.deep_view();
                segments.push(s);
                proof {
                    assert(segments.deep_view() =~= prevs.push(s@));
                    assert(prevs.push(s@) =~= self@.segments + other@.segments.take(i + 1));
                }
                i = i + 1;
            }
            proof {
                assert(self@.segments + other@.segments.take(other@.segments.len() as int) =~= self@.segments
                    + other@.segments);
            }
            let r = NormPath { absolute: self.absolute, segments };
            proof {
                assert(r@ =~= path_join(self@, other@));
            }
            r
        }
    }

    /// Strips a prefix off this path, yielding the relative remainder.
    pub fn strip_prefix(&self, base: &NormPath) -> (r: NormPath)
        requires
            is_prefix(base@, self@),
        ensures
            r@ == path_strip(self@, base@),
    {
        let mut segments: Vec<Vec<u8>> = Vec::new();
        let mut i: usize = base.segments.len();
        let ghost b = base@.segments.len() as int;
        proof {
            assert(segments.deep_view() =~= self@.segments.subrange(b, b));
        }
        while i < self.segments.len()
            invariant
                b <= i <= self@.segments.len(),
                b == base@.segments.len(),
                segments.deep_view() == self@.segments.subrange(b, i as int),
            decreases self@.segments.len() - i,
        {
            let s = clone_bytes(&self.segments[i]);
            proof {
                lemma_bytes_deep_view(s);
                lemma_bytes_deep_view(self.segments@[i as int]);
            }
            let ghost prevs = segments.deep_view();
            segments.push(s);
            proof {
                assert(segments.deep_view() =~= prevs.push(s@));
                assert(prevs.push(s@) =~= self@.segments.subrange(b, i + 1));
            }
            i = i + 1;
        }
        let r = NormPath { absolute: false, segments };
        proof {
            assert(self@.segments.subrange(b, self@.segments.len() as int) =~= self@.segments.skip(
                b,
            ));
            assert(r@ =~= path_strip(self@, base@));
        }
        r
    }

    /// Whether this path sorts no later than `other` in the library's path
    /// order.
    pub fn le(&self, other: &NormPath) -> (r: bool)
        ensures
            r == path_le(self@, other@),
    {
        if self.absolute != other.absolute {
            return !self.absolute;
        }
        let mut i: usize = 0;
        loop
            invariant
                self@.absolute == other@.absolute,
                0 <= i <= self@.segments.len(),
                i <= other@.segments.len(),
                forall|k: int| 0 <= k < i ==> self@.segments[k] == other@.segments[k],
            decreases self@.segments.len() - i,
        {
            proof {
                lemma_segs_lt_skip(self@.segments, other@.segments, i as int);
                lemma_segs_lt_skip(other@.segments, self@.segments, i as int);
            }
            if i == self.segments.len() || i == other.segments.len() {
                if self.segments.len() <= other.segments.len() {
                    proof {
                        if self@.segments.len() == other@.segments.len() {
                            assert(self@.segments =~= other@.segments);
                            assert(self@ =~= other@);
                        } else {
                            assert(self@.segments.skip(i as int).len() == 0);
                            assert(other@.segments.skip(i as int).len() > 0);
                        }
                    }
                    return true;
                } else {
                    proof {
                        assert(other@.segments.skip(i as int).len() == 0);
                        assert(self@.segments.skip(i as int).len() > 0);
                        assert(!segs_lt(self@.segments, other@.segments));
                        assert(self@.segments.len() != other@.segments.len());
                        assert(self@.segments != other@.segments);
                        assert(self@ != other@);
                    }
                    return false;
                }
            }
            match bytes_cmp(&self.segments[i], &other.segments[i]) {
                SegCmp::Equal => {
                    proof {
                        lemma_bytes_deep_view(self.segments@[i as int]);
                        lemma_bytes_deep_view(other.segments@[i as int]);
                    }
                    i = i + 1;
                }
                SegCmp::Less => {
                    proof {
                        lemma_bytes_deep_view(self.segments@[i as int]);
                        lemma_bytes_deep_view(other.segments@[i as int]);
                        assert(self@.segments.skip(i as int)[0] == self@.segments[i as int]);
                        assert(other@.segments.skip(i as int)[0] == other@.segments[i as int]);
                        lemma_bytes_lt_irreflexive(self@.segments[i as int]);
                        assert(segs_lt(self@.segments, other@.segments));
                    }
                    return true;
                }
                SegCmp::Greater => {
                    proof {
                        lemma_bytes_deep_view(self.segments@[i as int]);
                        lemma_bytes_deep_view(other.segments@[i as int]);
                        assert(self@.segments.skip(i as int)[0] == self@.segments[i as int]);
                        assert(other@.segments.skip(i as int)[0] == other@.segments[i as int]);
                        lemma_bytes_lt_irreflexive(other@.segments[i as int]);
                        assert(segs_lt(other@.segments, self@.segments));
                        if segs_lt(self@.segments, other@.segments) {
                            lemma_segs_lt_transitive(
                                self@.segments,
                                other@.segments,
                                self@.segments,
                            );
                            lemma_segs_lt_irreflexive(self@.segments);
                        }
                        assert(self@.segments[i as int] != other@.segments[i as int]);
                        assert(self@.segments != other@.segments);
                        assert(self@ != other@);
                    }
                    return false;
                }
            }
        }
    }
}

/// Whether a raw field survives normalization.
fn keep_segment(cur: &Vec<u8>) -> (r: bool)
    ensures
        r == seg_kept(cur@),
{
    if cur.len() == 0 {
        proof {
            assert(!seg_kept(cur@));
        }
        false
    } else if cur.len() == 1 && cur[0] == DOT_BYTE {
        proof {
            assert(cur@ =~= seq![DOT_BYTE]);
        }
        false
    } else {
        proof {
            if cur@ == seq![DOT_BYTE] {
                assert(cur@.len() == 1);
                assert(cur@[0] == DOT_BYTE);
            }
        }
        true
    }
}

impl PartialEq for NormPath {
    /// Two paths are equal exactly when their models are equal.
    fn eq(&self, other: &NormPath) -> (r: bool) {
        let r = self.segments.len() == other.segments.len() && self.starts_with(other);
        proof {
            if r {
                assert(other@.segments =~= self@.segments.subrange(
                    0,
                    other@.segments.len() as int,
                ));
                assert(self@.segments.subrange(0, self@.segments.len() as int) =~= self@.segments);
                assert(self@ =~= other@);
            } else {
                if self@ == other@ {
                    assert(self@.segments.is_prefix_of(other@.segments)) by {
                        assert(self@.segments.subrange(0, self@.segments.len() as int)
                            =~= self@.segments);
                    }
                }
            }
        }
        r
    }
}

impl Eq for NormPath {}

impl vstd::std_specs::cmp::PartialEqSpecImpl for NormPath {
    open spec fn obeys_eq_spec() -> bool {
        true
    }

    open spec fn eq_spec(&self, other: &NormPath) -> bool {
        self@ == other@
    }
}

/// Appending the next segment to a partial join.
proof fn lemma_join_take_snoc(ss: Seq<Seq<u8>>, i: int)
    requires
        0 <= i < ss.len(),
    ensures
        i == 0 ==> join_segs(ss.take(1)) == join_segs(ss.take(0)) + ss[0],
        i > 0 ==> join_segs(ss.take(i + 1)) == join_segs(ss.take(i)) + seq![SEP_BYTE] + ss[i],
    decreases i,
{
    if i == 0 {
        assert(ss.take(1).len() == 1);
        assert(ss.take(1)[0] == ss[0]);
        assert(join_segs(ss.take(0)) + ss[0] =~= ss[0]);
    } else if i == 1 {
        let t = ss.take(2);
        assert(t.len() == 2);
        assert(t[0] == ss[0]);
        assert(t.drop_first() =~= seq![ss[1]]);
        assert(join_segs(t) == t[0] + seq![SEP_BYTE] + join_segs(t.drop_first()));
        assert(join_segs(seq![ss[1]]) == ss[1]);
        assert(join_segs(ss.take(1)) == ss.take(1)[0]);
        assert(ss.take(1)[0] == ss[0]);
    } else {
        let t = ss.take(i + 1);
        let u = ss.take(i);
        assert(t.len() >= 2);
        assert(u.len() >= 2);
        assert(t.drop_first() =~= ss.drop_first().take(i));
        assert(u.drop_first() =~= ss.drop_first().take(i - 1));
        lemma_join_take_snoc(ss.drop_first(), i - 1);
        assert(ss.drop_first()[i - 1] == ss[i]);
        assert(join_segs(t) == t[0] + seq![SEP_BYTE] + join_segs(ss.drop_first().take(i)));
        assert(join_segs(u) == u[0] + seq![SEP_BYTE] + join_segs(ss.drop_first().take(i - 1)));
        assert(t[0] == ss[0]);
        assert(u[0] == ss[0]);
        assert(join_segs(ss.drop_first().take(i)) == join_segs(ss.drop_first().take(i - 1))
            + seq![SEP_BYTE] + ss.drop_first()[i - 1]);
        assert(join_segs(ss.take(i + 1)) =~= join_segs(ss.take(i)) + seq![SEP_BYTE] + ss[i]);
    }
}

} // verus!
