//! Byte-level text utilities shared by the registry, the synthesizer and the
//! obfuscation pipeline. Source text is carried as ASCII bytes; a text is
//! split into lines on the newline byte.
use vstd::prelude::*;

verus! {

pub const NEWLINE: u8 = 10;

pub const SPACE: u8 = 32;

pub open spec fn is_ident_start(b: u8) -> bool {
    (97 <= b <= 122) || (65 <= b <= 90) || b == 95
}

pub open spec fn is_ident_byte(b: u8) -> bool {
    is_ident_start(b) || (48 <= b <= 57)
}

/// An identifier: nonempty, a letter or underscore first, then letters,
/// digits and underscores.
pub open spec fn is_ident(s: Seq<u8>) -> bool {
    s.len() >= 1 && is_ident_start(s[0]) && forall|i: int| 0 <= i < s.len() ==> is_ident_byte(#[trigger] s[i])
}

/// The index of the first occurrence of `b` in `t`, or `t.len()` if absent.
pub open spec fn find_byte(t: Seq<u8>, b: u8) -> int
    decreases t.len(),
{
    if t.len() == 0 {
        0
    } else if t[0] == b {
        0
    } else {
        1 + find_byte(t.drop_first(), b)
    }
}

pub proof fn lemma_find_byte(t: Seq<u8>, b: u8)
    ensures
        0 <= find_byte(t, b) <= t.len(),
        find_byte(t, b) < t.len() ==> t[find_byte(t, b)] == b,
        forall|k: int| 0 <= k < find_byte(t, b) ==> t[k] != b,
    decreases t.len(),
{
    if t.len() != 0 && t[0] != b {
        lemma_find_byte(t.drop_first(), b);
        assert forall|k: int| 0 <= k < find_byte(t, b) implies t[k] != b by {
            if k > 0 {
                assert(t.drop_first()[k - 1] != b);
            }
        }
    }
}

/// The lines of a text, split on the newline byte. A text always has at
/// least one line; the newline bytes themselves belong to no line.
pub open spec fn lines_of(t: Seq<u8>) -> Seq<Seq<u8>>
    decreases t.len(),
{
    if t.len() == 0 {
        seq![Seq::<u8>::empty()]
    } else if t[0] == NEWLINE {
        seq![Seq::<u8>::empty()] + lines_of(t.drop_first())
    } else {
        let rest = lines_of(t.drop_first());
        seq![seq![t[0]] + rest[0]] + rest.drop_first()
    }
}

pub proof fn lemma_lines_of_nonempty(t: Seq<u8>)
    ensures
        lines_of(t).len() >= 1,
    decreases t.len(),
{
    if t.len() != 0 {
        lemma_lines_of_nonempty(t.drop_first());
    }
}

/// The inverse of line splitting: the lines joined by single newline bytes.
pub open spec fn join_lines(ls: Seq<Seq<u8>>) -> Seq<u8>
    decreases ls.len(),
{
    if ls.len() == 0 {
        Seq::<u8>::empty()
    } else if ls.len() == 1 {
        ls[0]
    } else {
        ls[0] + seq![NEWLINE] + join_lines(ls.drop_first())
    }
}

/// Splitting a text into lines and joining them again gives the text back.
pub proof fn lemma_join_lines_of(t: Seq<u8>)
    ensures
        join_lines(lines_of(t)) =~= t,
    decreases t.len(),
{
    if t.len() == 0 {
    } else if t[0] == NEWLINE {
        lemma_join_lines_of(t.drop_first());
        lemma_lines_of_nonempty(t.drop_first());
        let rest = lines_of(t.drop_first());
        let ls = lines_of(t);
        assert(ls.drop_first() =~= rest);
        assert(join_lines(ls) =~= Seq::<u8>::empty() + seq![NEWLINE] + join_lines(rest));
    } else {
        lemma_join_lines_of(t.drop_first());
        lemma_lines_of_nonempty(t.drop_first());
        let rest = lines_of(t.drop_first());
        let ls = lines_of(t);
        assert(ls[0] == seq![t[0]] + rest[0]);
        assert(ls.drop_first() =~= rest.drop_first());
        if rest.len() == 1 {
            assert(ls.len() == 1);
            assert(join_lines(ls) == ls[0]);
            assert(join_lines(rest) == rest[0]);
            assert(join_lines(ls) =~= seq![t[0]] + rest[0]);
        } else {
            assert(join_lines(ls) == ls[0] + seq![NEWLINE] + join_lines(ls.drop_first()));
            assert(join_lines(rest) == rest[0] + seq![NEWLINE] + join_lines(rest.drop_first()));
            assert(join_lines(ls) =~= seq![t[0]] + join_lines(rest));
        }
    }
}

/// A newline-free text is a single line.
pub proof fn lemma_lines_of_single(l: Seq<u8>)
    requires
        forall|k: int| 0 <= k < l.len() ==> l[k] != NEWLINE,
    ensures
        lines_of(l) == seq![l],
    decreases l.len(),
{
    if l.len() == 0 {
        assert(lines_of(l) =~~= seq![l]);
    } else {
        assert forall|k: int| 0 <= k < l.drop_first().len() implies l.drop_first()[k] != NEWLINE by {
            assert(l.drop_first()[k] == l[k + 1]);
        }
        lemma_lines_of_single(l.drop_first());
        assert(lines_of(l) =~~= seq![l]);
    }
}

/// Splitting a text that begins with a newline-free line, a newline and a
/// remainder yields that line followed by the remainder's lines.
pub proof fn lemma_lines_of_concat_line(l: Seq<u8>, w: Seq<u8>)
    requires
        forall|k: int| 0 <= k < l.len() ==> l[k] != NEWLINE,
    ensures
        lines_of(l + seq![NEWLINE] + w) == seq![l] + lines_of(w),
    decreases l.len(),
{
    let t = l + seq![NEWLINE] + w;
    if l.len() == 0 {
        assert(t[0] == NEWLINE);
        assert(t.drop_first() =~= w);
        assert(lines_of(t) =~~= seq![l] + lines_of(w));
    } else {
        assert(t[0] == l[0]);
        assert(t[0] != NEWLINE);
        assert(t.drop_first() =~= l.drop_first() + seq![NEWLINE] + w);
        assert forall|k: int| 0 <= k < l.drop_first().len() implies l.drop_first()[k] != NEWLINE by {
            assert(l.drop_first()[k] == l[k + 1]);
        }
        lemma_lines_of_concat_line(l.drop_first(), w);
        let rest = lines_of(t.drop_first());
        assert(rest == seq![l.drop_first()] + lines_of(w));
        assert(rest[0] == l.drop_first());
        assert(seq![t[0]] + rest[0] =~= l);
        assert(rest.drop_first() =~= lines_of(w));
        assert(lines_of(t) =~~= seq![l] + lines_of(w));
    }
}

/// Joining newline-free lines and splitting again restores the lines.
pub proof fn lemma_lines_of_join(ls: Seq<Seq<u8>>)
    requires
        ls.len() >= 1,
        forall|i: int, k: int|
            0 <= i < ls.len() && 0 <= k < ls[i].len() ==> #[trigger] ls[i][k] != NEWLINE,
    ensures
        lines_of(join_lines(ls)) == ls,
    decreases ls.len(),
{
    if ls.len() == 1 {
        assert(forall|k: int| 0 <= k < ls[0].len() ==> #[trigger] ls[0][k] != NEWLINE);
        lemma_lines_of_single(ls[0]);
        assert(lines_of(join_lines(ls)) =~~= ls);
    } else {
        let rest = ls.drop_first();
        assert forall|i: int, k: int|
            0 <= i < rest.len() && 0 <= k < rest[i].len() implies #[trigger] rest[i][k]
            != NEWLINE by {
            assert(rest[i] == ls[i + 1]);
            assert(ls[i + 1][k] != NEWLINE);
        }
        lemma_lines_of_join(rest);
        assert(forall|k: int| 0 <= k < ls[0].len() ==> #[trigger] ls[0][k] != NEWLINE);
        lemma_lines_of_concat_line(ls[0], join_lines(rest));
        assert(join_lines(ls) == ls[0] + seq![NEWLINE] + join_lines(rest));
        assert(seq![ls[0]] + rest =~= ls);
    }
}

spec fn prepend_first(pre: Seq<u8>, ls: Seq<Seq<u8>>) -> Seq<Seq<u8>> {
    seq![pre + ls[0]] + ls.drop_first()
}

/// Splits a text into its lines.
pub fn split_lines(t: &Vec<u8>) -> (r: Vec<Vec<u8>>)
    ensures
        r.deep_view() == lines_of(t@),
{
    let mut out: Vec<Vec<u8>> = Vec::new();
    let mut cur: Vec<u8> = Vec::new();
    let mut i: usize = 0;
    proof {
        lemma_lines_of_nonempty(t@);
        assert(t@.skip(0) =~= t@);
        assert(prepend_first(Seq::<u8>::empty(), lines_of(t@)) =~~= lines_of(t@));
    }
    while i < t.len()
        invariant
            i <= t@.len(),
            out.deep_view() + prepend_first(cur@, lines_of(t@.skip(i as int))) =~~= lines_of(t@),
        decreases t@.len() - i,
    {
        let c = t[i];
        proof {
            assert(t@.skip(i as int)[0] == t@[i as int]);
            assert(t@.skip(i as int).drop_first() =~= t@.skip(i as int + 1));
            lemma_lines_of_nonempty(t@.skip(i as int + 1));
        }
        if c == NEWLINE {
            let ghost old_out = out.deep_view();
            let ghost old_cur = cur@;
            out.push(cur);
            cur = Vec::new();
            proof {
                assert(out.deep_view() =~~= old_out.push(old_cur));
                assert(prepend_first(old_cur, lines_of(t@.skip(i as int))) =~~= seq![old_cur]
                    + lines_of(t@.skip(i as int + 1)));
                assert(prepend_first(cur@, lines_of(t@.skip(i as int + 1))) =~~= lines_of(
                    t@.skip(i as int + 1),
                ));
                assert(out.deep_view() + prepend_first(cur@, lines_of(t@.skip(i as int + 1)))
                    =~~= lines_of(t@));
            }
        } else {
            let ghost old_cur = cur@;
            cur.push(c);
            proof {
                let rest = lines_of(t@.skip(i as int + 1));
                assert(prepend_first(old_cur, lines_of(t@.skip(i as int))) =~~= prepend_first(
                    cur@,
                    rest,
                ));
            }
        }
        i = i + 1;
    }
    proof {
        assert(t@.skip(t@.len() as int) =~= Seq::<u8>::empty());
        assert(prepend_first(cur@, lines_of(Seq::<u8>::empty())) =~~= seq![cur@]);
    }
    let ghost old_out = out.deep_view();
    let ghost last = cur@;
    out.push(cur);
    proof {
        assert(out.deep_view() =~~= old_out.push(last));
        assert(out.deep_view() =~~= lines_of(t@));
    }
    out
}

/// Joins lines back into a single text with newline separators.
pub fn join_text(ls: &Vec<Vec<u8>>) -> (r: Vec<u8>)
    ensures
        r@ == join_lines(ls.deep_view()),
{
    let mut out: Vec<u8> = Vec::new();
    let mut i: usize = 0;
    proof {
        assert(ls.deep_view().skip(0) =~= ls.deep_view());
    }
    while i < ls.len()
        invariant
            i <= ls@.len(),
            ls@.len() == ls.deep_view().len(),
            out@ + join_lines(ls.deep_view().skip(i as int)) =~= join_lines(ls.deep_view()),
        decreases ls@.len() - i,
    {
        let ghost pre = out@;
        let ghost rest = ls.deep_view().skip(i as int);
        let line = &ls[i];
        proof {
            assert(rest[0] == ls.deep_view()[i as int]);
            assert(line@ == ls.deep_view()[i as int]);
            assert(rest.drop_first() =~= ls.deep_view().skip(i as int + 1));
        }
        out.extend_from_slice(line.as_slice());
        if i + 1 < ls.len() {
            out.push(NEWLINE);
            proof {
                assert(rest.len() >= 2);
                assert(out@ =~= pre + rest[0] + seq![NEWLINE]);
                assert(out@ + join_lines(ls.deep_view().skip(i as int + 1)) =~= join_lines(
                    ls.deep_view(),
                ));
            }
        } else {
            proof {
                assert(rest.len() == 1);
                assert(out@ =~= pre + rest[0]);
                assert(ls.deep_view().skip(i as int + 1) =~= Seq::<Seq<u8>>::empty());
                assert(out@ + join_lines(ls.deep_view().skip(i as int + 1)) =~= join_lines(
                    ls.deep_view(),
                ));
            }
        }
        i = i + 1;
    }
    proof {
        if ls.deep_view().len() == 0 {
            assert(out@ =~= join_lines(ls.deep_view()));
        } else {
            assert(ls.deep_view().skip(ls.deep_view().len() as int) =~= Seq::<Seq<u8>>::empty());
            assert(out@ =~= join_lines(ls.deep_view()));
        }
    }
    out
}

/// `needle` occurs in `hay` starting at position `i`.
pub open spec fn occurs_at(hay: Seq<u8>, needle: Seq<u8>, i: int) -> bool {
    0 <= i && i + needle.len() <= hay.len() && hay.subrange(i, i + needle.len()) == needle
}

/// `needle` occurs somewhere in `hay` as a contiguous run.
pub open spec fn occurs(hay: Seq<u8>, needle: Seq<u8>) -> bool {
    exists|i: int| occurs_at(hay, needle, i)
}

/// Whether `pat` stands in `hay` exactly at position `pos`.
pub fn matches_at(hay: &Vec<u8>, pos: usize, pat: &Vec<u8>) -> (r: bool)
    requires
        pos + pat@.len() <= hay@.len(),
    ensures
        r == occurs_at(hay@, pat@, pos as int),
{
    let n = hay.len();
    let mut j: usize = 0;
    while j < pat.len()
        invariant
            n == hay@.len(),
            j <= pat@.len(),
            pos + pat@.len() <= hay@.len(),
            forall|k: int| 0 <= k < j ==> hay@[pos + k] == pat@[k],
        decreases pat@.len() - j,
    {
        if hay[pos + j] != pat[j] {
            proof {
                let sub = hay@.subrange(pos as int, pos as int + pat@.len() as int);
                assert(sub[j as int] == hay@[pos + j as int]);
                assert(sub[j as int] != pat@[j as int]);
            }
            return false;
        }
        j = j + 1;
    }
    proof {
        assert(hay@.subrange(pos as int, pos as int + pat@.len() as int) =~= pat@);
    }
    true
}

/// Verified substring search: whether `needle` occurs anywhere in `hay`.
pub fn contains_bytes(hay: &Vec<u8>, needle: &Vec<u8>) -> (r: bool)
    ensures
        r == occurs(hay@, needle@),
{
    if needle.len() > hay.len() {
        proof {
            assert(forall|i: int| !occurs_at(hay@, needle@, i));
        }
        return false;
    }
    if needle.len() == 0 {
        proof {
            assert(hay@.subrange(0, 0) =~= needle@);
            assert(occurs_at(hay@, needle@, 0));
        }
        return true;
    }
    let hn = hay.len();
    let last = hn - needle.len();
    let mut i: usize = 0;
    while i <= last
        invariant
            needle@.len() >= 1,
            hn == hay@.len(),
            last == hay@.len() - needle@.len(),
            last < hn,
            i <= last + 1,
            forall|k: int| 0 <= k < i ==> !occurs_at(hay@, needle@, k),
        decreases last + 1 - i,
    {
        if matches_at(hay, i, needle) {
            proof {
                assert(occurs_at(hay@, needle@, i as int));
            }
            return true;
        }
        i = i + 1;
    }
    proof {
        assert forall|k: int| !occurs_at(hay@, needle@, k) by {
            if 0 <= k < i {
            } else {
            }
        }
    }
    false
}

/// Whether two byte texts are equal.
pub fn bytes_equal(a: &Vec<u8>, b: &Vec<u8>) -> (r: bool)
    ensures
        r == (a@ == b@),
{
    if a.len() != b.len() {
        return false;
    }
    let r = matches_at(a, 0, b);
    proof {
        assert(a@.subrange(0, b@.len() as int) =~= a@);
        if occurs_at(a@, b@, 0) {
            assert(a@ == b@);
        }
    }
    r
}

/// Copies `v[from..to]` into a fresh vector.
pub fn copy_range(v: &Vec<u8>, from: usize, to: usize) -> (r: Vec<u8>)
    requires
        from <= to <= v@.len(),
    ensures
        r@ == v@.subrange(from as int, to as int),
{
    let mut out: Vec<u8> = Vec::new();
    let mut i: usize = from;
    while i < to
        invariant
            from <= i <= to <= v@.len(),
            out@ =~= v@.subrange(from as int, i as int),
        decreases to - i,
    {
        out.push(v[i]);
        proof {
            assert(out@ =~= v@.subrange(from as int, i as int + 1));
        }
        i = i + 1;
    }
    out
}

} // verus!
