//! The obfuscation pipeline: ordered, independently togglable textual
//! transforms applied to synthesized lines — whitespace jitter, comment
//! injection and dead-statement injection. Each rule preserves the essence
//! of the text: after collapsing space runs, stripping trailing spaces and
//! discarding inert lines (blank lines, comment lines and the fixed pool of
//! dead statements), the lines are unchanged. A rule that cannot apply
//! safely degrades to a no-op instead of failing.
use crate::registry::{ident_len, ident_len_at, lemma_ident_len};
use crate::rng::random_below;
use crate::text::{bytes_equal, copy_range, is_ident, is_ident_byte, SPACE};
use vstd::prelude::*;

verus! {

pub const SLASH: u8 = 47;

// ---------------------------------------------------------------------------
// Line normalization: collapse space runs, strip trailing spaces.
// ---------------------------------------------------------------------------
/// Collapses every run of spaces to a single space: a space directly
/// followed by another space is dropped.
pub open spec fn collapse_spaces(s: Seq<u8>) -> Seq<u8>
    decreases s.len(),
{
    if s.len() == 0 {
        Seq::<u8>::empty()
    } else if s.len() >= 2 && s[0] == SPACE && s[1] == SPACE {
        collapse_spaces(s.drop_first())
    } else {
        seq![s[0]] + collapse_spaces(s.drop_first())
    }
}

/// Drops every trailing space.
pub open spec fn strip_trailing_spaces(s: Seq<u8>) -> Seq<u8>
    decreases s.len(),
{
    if s.len() > 0 && s[s.len() - 1] == SPACE {
        strip_trailing_spaces(s.drop_last())
    } else {
        s
    }
}

/// The normal form of a line: trailing spaces stripped, space runs collapsed.
pub open spec fn normalize_line(s: Seq<u8>) -> Seq<u8> {
    collapse_spaces(strip_trailing_spaces(s))
}

/// Every space doubled.
pub open spec fn double_spaces(s: Seq<u8>) -> Seq<u8>
    decreases s.len(),
{
    if s.len() == 0 {
        Seq::<u8>::empty()
    } else if s[0] == SPACE {
        seq![SPACE, SPACE] + double_spaces(s.drop_first())
    } else {
        seq![s[0]] + double_spaces(s.drop_first())
    }
}

/// `k` spaces.
pub open spec fn spaces(k: nat) -> Seq<u8> {
    Seq::new(k, |i: int| SPACE)
}

proof fn lemma_double_spaces_push(s: Seq<u8>, c: u8)
    ensures
        double_spaces(s.push(c)) == double_spaces(s) + (if c == SPACE {
            seq![SPACE, SPACE]
        } else {
            seq![c]
        }),
    decreases s.len(),
{
    let f = if c == SPACE {
        seq![SPACE, SPACE]
    } else {
        seq![c]
    };
    if s.len() == 0 {
        assert(s.push(c) =~= seq![c]);
        assert(seq![c].drop_first() =~= Seq::<u8>::empty());
        assert(double_spaces(Seq::<u8>::empty()) == Seq::<u8>::empty());
        assert(double_spaces(seq![c]) == f + double_spaces(Seq::<u8>::empty()));
        assert(double_spaces(s.push(c)) =~= double_spaces(s) + f);
    } else {
        let p = s.push(c);
        assert(p[0] == s[0]);
        assert(p.drop_first() =~= s.drop_first().push(c));
        lemma_double_spaces_push(s.drop_first(), c);
        assert(double_spaces(p) =~= double_spaces(s) + f);
    }
}

proof fn lemma_rstrip_double(s: Seq<u8>)
    ensures
        strip_trailing_spaces(double_spaces(s)) == double_spaces(strip_trailing_spaces(s)),
    decreases s.len(),
{
    if s.len() == 0 {
    } else {
        let x = s.drop_last();
        let c = s.last();
        assert(s =~= x.push(c));
        lemma_double_spaces_push(x, c);
        if c == SPACE {
            lemma_rstrip_double(x);
            let dx = double_spaces(x);
            assert(double_spaces(s) == dx + seq![SPACE, SPACE]);
            assert((dx + seq![SPACE, SPACE]).last() == SPACE);
            assert((dx + seq![SPACE, SPACE]).drop_last() =~= dx + seq![SPACE]);
            assert((dx + seq![SPACE]).last() == SPACE);
            assert((dx + seq![SPACE]).drop_last() =~= dx);
            assert(strip_trailing_spaces(dx + seq![SPACE, SPACE]) == strip_trailing_spaces(
                dx + seq![SPACE],
            ));
            assert(strip_trailing_spaces(dx + seq![SPACE]) == strip_trailing_spaces(dx));
            assert(strip_trailing_spaces(double_spaces(s)) == strip_trailing_spaces(dx));
            assert(strip_trailing_spaces(s) == strip_trailing_spaces(x));
        } else {
            let dx = double_spaces(x);
            assert(double_spaces(s) == dx + seq![c]);
            assert((dx + seq![c]).last() == c);
            assert(strip_trailing_spaces(double_spaces(s)) == double_spaces(s));
            assert(strip_trailing_spaces(s) == s);
        }
    }
}

proof fn lemma_collapse_double(s: Seq<u8>)
    ensures
        collapse_spaces(double_spaces(s)) == collapse_spaces(s),
    decreases s.len(),
{
    if s.len() == 0 {
    } else {
        let t = s.drop_first();
        lemma_collapse_double(t);
        if s[0] == SPACE {
            let d = seq![SPACE, SPACE] + double_spaces(t);
            assert(double_spaces(s) == d);
            assert(d.len() >= 2 && d[0] == SPACE && d[1] == SPACE);
            assert(d.drop_first() =~= seq![SPACE] + double_spaces(t));
            let e = seq![SPACE] + double_spaces(t);
            assert(collapse_spaces(d) == collapse_spaces(e));
            if t.len() == 0 {
                assert(e =~= seq![SPACE]);
                assert(e.drop_first() =~= Seq::<u8>::empty());
                assert(collapse_spaces(e) =~= seq![SPACE]);
                assert(s =~= seq![SPACE]);
                assert(s.drop_first() =~= Seq::<u8>::empty());
                assert(collapse_spaces(s) =~= seq![SPACE]);
            } else if t[0] == SPACE {
                assert(double_spaces(t)[0] == SPACE);
                assert(e.len() >= 2 && e[0] == SPACE && e[1] == SPACE);
                assert(e.drop_first() =~= double_spaces(t));
                assert(collapse_spaces(e) == collapse_spaces(double_spaces(t)));
                assert(s.len() >= 2 && s[1] == SPACE);
                assert(collapse_spaces(s) == collapse_spaces(t));
            } else {
                assert(double_spaces(t)[0] == t[0]);
                assert(!(e.len() >= 2 && e[0] == SPACE && e[1] == SPACE));
                assert(e.drop_first() =~= double_spaces(t));
                assert(collapse_spaces(e) =~= seq![SPACE] + collapse_spaces(double_spaces(t)));
                assert(s.len() >= 2 && s[1] != SPACE);
                assert(collapse_spaces(s) =~= seq![SPACE] + collapse_spaces(t));
            }
        } else {
            let d = seq![s[0]] + double_spaces(t);
            assert(double_spaces(s) == d);
            assert(d[0] != SPACE);
            assert(d.drop_first() =~= double_spaces(t));
            assert(collapse_spaces(d) =~= seq![s[0]] + collapse_spaces(double_spaces(t)));
            assert(collapse_spaces(s) =~= seq![s[0]] + collapse_spaces(t));
        }
    }
}

proof fn lemma_rstrip_append_spaces(s: Seq<u8>, k: nat)
    ensures
        strip_trailing_spaces(s + spaces(k)) == strip_trailing_spaces(s),
    decreases k,
{
    if k == 0 {
        assert(s + spaces(0) =~= s);
    } else {
        let w = s + spaces(k);
        assert(w.last() == SPACE);
        assert(w.drop_last() =~= s + spaces((k - 1) as nat));
        lemma_rstrip_append_spaces(s, (k - 1) as nat);
    }
}

/// Doubling spaces does not change a line's normal form.
pub proof fn lemma_normalize_double(s: Seq<u8>)
    ensures
        normalize_line(double_spaces(s)) == normalize_line(s),
{
    lemma_rstrip_double(s);
    lemma_collapse_double(strip_trailing_spaces(s));
}

/// Appending trailing spaces does not change a line's normal form.
pub proof fn lemma_normalize_trailing(s: Seq<u8>, k: nat)
    ensures
        normalize_line(s + spaces(k)) == normalize_line(s),
{
    lemma_rstrip_append_spaces(s, k);
}

// ---------------------------------------------------------------------------
// Inert lines and the essence of a text.
// ---------------------------------------------------------------------------
/// "let _ = 0;"
pub open spec fn dead_discard_zero() -> Seq<u8> {
    seq![108u8, 101u8, 116u8, 32u8, 95u8, 32u8, 61u8, 32u8, 48u8, 59u8]
}

/// "let _x = 1;"
pub open spec fn dead_discard_one() -> Seq<u8> {
    seq![108u8, 101u8, 116u8, 32u8, 95u8, 120u8, 32u8, 61u8, 32u8, 49u8, 59u8]
}

/// An inert normalized line: blank, a comment (optionally indented), or one
/// of the fixed dead-statement pool entries (optionally indented).
pub open spec fn is_inert_norm(n: Seq<u8>) -> bool {
    n.len() == 0 || (n.len() >= 2 && n[0] == SLASH && n[1] == SLASH) || (n.len() >= 3 && n[0]
        == SPACE && n[1] == SLASH && n[2] == SLASH) || n == dead_discard_zero() || n == seq![SPACE]
        + dead_discard_zero() || n == dead_discard_one() || n == seq![SPACE] + dead_discard_one()
}

/// The essence of a text, line by line: each line normalized, inert lines
/// discarded. Two texts with the same essence carry the same program; the
/// obfuscation rules may only move between such texts.
pub open spec fn essence(ls: Seq<Seq<u8>>) -> Seq<Seq<u8>>
    decreases ls.len(),
{
    if ls.len() == 0 {
        Seq::<Seq<u8>>::empty()
    } else {
        let n = normalize_line(ls[0]);
        let rest = essence(ls.drop_first());
        if is_inert_norm(n) {
            rest
        } else {
            seq![n] + rest
        }
    }
}

pub proof fn lemma_essence_add(a: Seq<Seq<u8>>, b: Seq<Seq<u8>>)
    ensures
        essence(a + b) == essence(a) + essence(b),
    decreases a.len(),
{
    if a.len() == 0 {
        assert(a + b =~= b);
        assert(essence(a) + essence(b) =~= essence(b));
    } else {
        assert((a + b)[0] == a[0]);
        assert((a + b).drop_first() =~= a.drop_first() + b);
        lemma_essence_add(a.drop_first(), b);
        let n = normalize_line(a[0]);
        if is_inert_norm(n) {
            assert(essence(a + b) == essence(a.drop_first()) + essence(b));
        } else {
            assert(essence(a + b) =~= (seq![n] + essence(a.drop_first())) + essence(b));
        }
    }
}

/// Two line sequences with pointwise-equal normal forms have the same
/// essence.
pub proof fn lemma_essence_pointwise(a: Seq<Seq<u8>>, b: Seq<Seq<u8>>)
    requires
        a.len() == b.len(),
        forall|i: int|
            0 <= i < a.len() ==> normalize_line(#[trigger] a[i]) == normalize_line(b[i]),
    ensures
        essence(a) == essence(b),
    decreases a.len(),
{
    if a.len() > 0 {
        assert(a.drop_first().len() == b.drop_first().len());
        assert forall|i: int| 0 <= i < a.drop_first().len() implies normalize_line(
            #[trigger] a.drop_first()[i],
        ) == normalize_line(b.drop_first()[i]) by {
            assert(a.drop_first()[i] == a[i + 1]);
            assert(b.drop_first()[i] == b[i + 1]);
        }
        lemma_essence_pointwise(a.drop_first(), b.drop_first());
        assert(normalize_line(a[0]) == normalize_line(b[0]));
    }
}

/// Inserting a line whose normal form is inert leaves the essence unchanged.
pub proof fn lemma_essence_insert_inert(ls: Seq<Seq<u8>>, i: int, c: Seq<u8>)
    requires
        0 <= i <= ls.len(),
        is_inert_norm(normalize_line(c)),
    ensures
        essence(ls.insert(i, c)) == essence(ls),
{
    let a = ls.take(i);
    let b = ls.skip(i);
    assert(ls.insert(i, c) =~= a + (seq![c] + b));
    assert(ls =~= a + b);
    lemma_essence_add(a, seq![c] + b);
    lemma_essence_add(seq![c], b);
    assert(seq![c].drop_first() =~= Seq::<Seq<u8>>::empty());
    assert(essence(Seq::<Seq<u8>>::empty()) == Seq::<Seq<u8>>::empty());
    assert(essence(seq![c]) =~= Seq::<Seq<u8>>::empty());
    lemma_essence_add(a, b);
    assert(essence(a + (seq![c] + b)) =~= essence(a) + essence(b));
}

// ---------------------------------------------------------------------------
// Executable normalization, for checking texts against each other.
// ---------------------------------------------------------------------------
proof fn lemma_rstrip_is_take(l: Seq<u8>, j: int)
    requires
        0 <= j <= l.len(),
        forall|k: int| j <= k < l.len() ==> l[k] == SPACE,
        j == 0 || l[j - 1] != SPACE,
    ensures
        strip_trailing_spaces(l) == l.take(j),
    decreases l.len(),
{
    if j == l.len() {
        assert(l.take(j) =~= l);
    } else {
        assert(l[l.len() - 1] == SPACE);
        lemma_rstrip_is_take(l.drop_last(), j);
        assert(l.drop_last().take(j) =~= l.take(j));
    }
}

/// Computes the normal form of a line.
pub fn normalize_line_exec(l: &Vec<u8>) -> (r: Vec<u8>)
    ensures
        r@ == normalize_line(l@),
{
    // strip trailing spaces
    let mut j: usize = l.len();
    while j > 0 && l[j - 1] == SPACE
        invariant
            j <= l@.len(),
            forall|k: int| j <= k < l@.len() ==> l@[k] == SPACE,
        decreases j,
    {
        j = j - 1;
    }
    let stripped = copy_range(l, 0, j);
    proof {
        lemma_rstrip_is_take(l@, j as int);
        assert(stripped@ == strip_trailing_spaces(l@));
    }
    // collapse space runs
    let s = stripped;
    let n = s.len();
    let mut out: Vec<u8> = Vec::new();
    let mut i: usize = 0;
    proof {
        assert(s@.skip(0) =~= s@);
    }
    while i < n
        invariant
            n == s@.len(),
            i <= n,
            collapse_spaces(s@) =~= out@ + collapse_spaces(s@.skip(i as int)),
        decreases n - i,
    {
        let ghost rem = s@.skip(i as int);
        proof {
            assert(rem[0] == s@[i as int]);
            assert(rem.drop_first() =~= s@.skip(i as int + 1));
            if rem.len() >= 2 {
                assert(rem[1] == s@[i as int + 1]);
            }
        }
        let ghost old_out = out@;
        if i + 1 < n && s[i] == SPACE && s[i + 1] == SPACE {
            // drop this space: the run continues
        } else {
            out.push(s[i]);
            proof {
                assert(out@ =~= old_out + seq![rem[0]]);
                assert(old_out + (seq![rem[0]] + collapse_spaces(s@.skip(i as int + 1))) =~= (
                old_out + seq![rem[0]]) + collapse_spaces(s@.skip(i as int + 1)));
            }
        }
        i = i + 1;
    }
    proof {
        assert(s@.skip(n as int) =~= Seq::<u8>::empty());
        assert(out@ =~= collapse_spaces(s@));
    }
    out
}

// ---------------------------------------------------------------------------
// The rules.
// ---------------------------------------------------------------------------
fn double_spaces_exec(l: &Vec<u8>) -> (r: Vec<u8>)
    ensures
        r@ == double_spaces(l@),
{
    let mut out: Vec<u8> = Vec::new();
    let n = l.len();
    let mut i: usize = 0;
    proof {
        assert(l@.take(0) =~= Seq::<u8>::empty());
    }
    while i < n
        invariant
            n == l@.len(),
            i <= n,
            out@ == double_spaces(l@.take(i as int)),
        decreases n - i,
    {
        let ghost pre = l@.take(i as int);
        let c = l[i];
        if c == SPACE {
            out.push(SPACE);
            out.push(SPACE);
        } else {
            out.push(c);
        }
        proof {
            lemma_double_spaces_push(pre, c);
            assert(l@.take(i as int + 1) =~= pre.push(c));
            assert(out@ =~= double_spaces(l@.take(i as int + 1)));
        }
        i = i + 1;
    }
    proof {
        assert(l@.take(n as int) =~= l@);
    }
    out
}

fn append_spaces(l: &Vec<u8>, k: usize) -> (r: Vec<u8>)
    ensures
        r@ == l@ + spaces(k as nat),
{
    let mut out = copy_range(l, 0, l.len());
    proof {
        assert(out@ =~= l@);
    }
    let mut j: usize = 0;
    while j < k
        invariant
            j <= k,
            out@ =~= l@ + spaces(j as nat),
        decreases k - j,
    {
        out.push(SPACE);
        proof {
            assert(out@ =~= l@ + spaces(j as nat + 1));
        }
        j = j + 1;
    }
    out
}

/// Whitespace jitter: doubles space runs and/or appends trailing indentation,
/// each under its own independent probability (in percent). Whatever the
/// draws, the essence of the text is unchanged.
pub fn jitter_whitespace(lines: &Vec<Vec<u8>>, double_percent: usize, trailing_percent: usize) -> (r:
    Vec<Vec<u8>>)
    ensures
        essence(r.deep_view()) == essence(lines.deep_view()),
        r.deep_view().len() == lines.deep_view().len(),
{
    let apply_double = random_below(100) < double_percent;
    let apply_trailing = random_below(100) < trailing_percent;
    let mut out: Vec<Vec<u8>> = Vec::new();
    let n = lines.len();
    let mut i: usize = 0;
    while i < n
        invariant
            n == lines@.len(),
            lines@.len() == lines.deep_view().len(),
            i <= n,
            out.deep_view().len() == i,
            forall|k: int|
                0 <= k < i ==> normalize_line(#[trigger] out.deep_view()[k]) == normalize_line(
                    lines.deep_view()[k],
                ),
        decreases n - i,
    {
        let ghost old_deep = out.deep_view();
        let ghost orig = lines.deep_view()[i as int];
        let mut line = copy_range(&lines[i], 0, lines[i].len());
        proof {
            assert(lines@[i as int]@.subrange(0, lines@[i as int]@.len() as int) =~= lines@[
                i as int
            ]@);
            assert(line@ == orig);
        }
        if apply_double {
            let ghost before = line@;
            line = double_spaces_exec(&line);
            proof {
                lemma_normalize_double(before);
            }
        }
        if apply_trailing {
            let ghost before = line@;
            line = append_spaces(&line, 4);
            proof {
                lemma_normalize_trailing(before, 4);
            }
        }
        let ghost newline = line@;
        out.push(line);
        proof {
            assert(out.deep_view() =~~= old_deep.push(newline));
            assert(normalize_line(newline) == normalize_line(orig));
        }
        i = i + 1;
    }
    proof {
        lemma_essence_pointwise(out.deep_view(), lines.deep_view());
    }
    out
}

fn make_comment(which: usize) -> (r: Vec<u8>)
    ensures
        is_inert_norm(normalize_line(r@)),
{
    let mut v: Vec<u8> = Vec::new();
    v.push(SLASH);
    v.push(SLASH);
    v.push(SPACE);
    if which == 0 {
        // "// note"
        v.push(110);
        v.push(111);
        v.push(116);
        v.push(101);
    } else if which == 1 {
        // "// step"
        v.push(115);
        v.push(116);
        v.push(101);
        v.push(112);
    } else {
        // "// path"
        v.push(112);
        v.push(97);
        v.push(116);
        v.push(104);
    }
    proof {
        reveal_with_fuel(collapse_spaces, 9);
        reveal_with_fuel(strip_trailing_spaces, 2);
        assert(strip_trailing_spaces(v@) == v@);
        assert(collapse_spaces(v@)[0] == SLASH && collapse_spaces(v@)[1] == SLASH
            && collapse_spaces(v@).len() >= 2);
    }
    v
}

fn make_dead_statement(which: usize) -> (r: Vec<u8>)
    ensures
        is_inert_norm(normalize_line(r@)),
{
    let mut v: Vec<u8> = Vec::new();
    v.push(108);
    v.push(101);
    v.push(116);
    v.push(32);
    v.push(95);
    if which == 0 {
        // "let _ = 0;"
        v.push(32);
        v.push(61);
        v.push(32);
        v.push(48);
        v.push(59);
        proof {
            reveal_with_fuel(collapse_spaces, 12);
            reveal_with_fuel(strip_trailing_spaces, 2);
            assert(v@ =~= dead_discard_zero());
            assert(strip_trailing_spaces(v@) == v@);
            assert(collapse_spaces(v@) =~= dead_discard_zero());
        }
    } else {
        // "let _x = 1;"
        v.push(120);
        v.push(32);
        v.push(61);
        v.push(32);
        v.push(49);
        v.push(59);
        proof {
            reveal_with_fuel(collapse_spaces, 13);
            reveal_with_fuel(strip_trailing_spaces, 2);
            assert(v@ =~= dead_discard_one());
            assert(strip_trailing_spaces(v@) == v@);
            assert(collapse_spaces(v@) =~= dead_discard_one());
        }
    }
    v
}

/// Comment injection: inserts one to four comment lines from the fixed pool
/// at uniformly random line positions. Comments are inert, so the essence of
/// the text is unchanged.
pub fn inject_comments(lines: &Vec<Vec<u8>>) -> (r: Vec<Vec<u8>>)
    requires
        lines@.len() + 8 <= usize::MAX,
    ensures
        essence(r.deep_view()) == essence(lines.deep_view()),
        lines.deep_view().len() <= r.deep_view().len() <= lines.deep_view().len() + 4,
{
    let count = 1 + random_below(4);
    let mut out = clone_lines(lines);
    let mut j: usize = 0;
    while j < count
        invariant
            count <= 4,
            j <= count,
            lines@.len() + 8 <= usize::MAX,
            lines@.len() == lines.deep_view().len(),
            out.deep_view().len() == lines.deep_view().len() + j,
            essence(out.deep_view()) == essence(lines.deep_view()),
        decreases count - j,
    {
        let pos = random_below(out.len() + 1);
        let c = make_comment(random_below(3));
        let ghost old_deep = out.deep_view();
        let ghost cv = c@;
        out.insert(pos, c);
        proof {
            assert(out.deep_view() =~~= old_deep.insert(pos as int, cv));
            lemma_essence_insert_inert(old_deep, pos as int, cv);
        }
        j = j + 1;
    }
    out
}

/// Dead-statement injection: inserts one to three statements from the fixed
/// pool that bind an unused value, at random interior positions — never as
/// the first line. On a text too short to have an interior it degrades to a
/// no-op. The essence of the text is unchanged, and the first line is kept.
pub fn inject_dead_statements(lines: &Vec<Vec<u8>>) -> (r: Vec<Vec<u8>>)
    requires
        lines@.len() + 8 <= usize::MAX,
    ensures
        essence(r.deep_view()) == essence(lines.deep_view()),
        lines.deep_view().len() <= r.deep_view().len() <= lines.deep_view().len() + 3,
        lines.deep_view().len() >= 1 ==> r.deep_view().len() >= 1 && r.deep_view()[0]
            == lines.deep_view()[0],
{
    let mut out = clone_lines(lines);
    if lines.len() < 2 {
        return out;
    }
    let count = 1 + random_below(3);
    let mut j: usize = 0;
    while j < count
        invariant
            count <= 3,
            j <= count,
            lines@.len() + 8 <= usize::MAX,
            lines@.len() == lines.deep_view().len(),
            lines@.len() >= 2,
            out.deep_view().len() == lines.deep_view().len() + j,
            essence(out.deep_view()) == essence(lines.deep_view()),
            out.deep_view()[0] == lines.deep_view()[0],
        decreases count - j,
    {
        let pos = 1 + random_below(out.len());
        let c = make_dead_statement(random_below(2));
        let ghost old_deep = out.deep_view();
        let ghost cv = c@;
        out.insert(pos, c);
        proof {
            assert(out.deep_view() =~~= old_deep.insert(pos as int, cv));
            lemma_essence_insert_inert(old_deep, pos as int, cv);
        }
        j = j + 1;
    }
    out
}

fn clone_lines(lines: &Vec<Vec<u8>>) -> (r: Vec<Vec<u8>>)
    ensures
        r.deep_view() == lines.deep_view(),
        r@.len() == lines@.len(),
{
    let mut out: Vec<Vec<u8>> = Vec::new();
    let n = lines.len();
    let mut i: usize = 0;
    while i < n
        invariant
            n == lines@.len(),
            lines@.len() == lines.deep_view().len(),
            i <= n,
            out.deep_view().len() == i,
            forall|k: int| 0 <= k < i ==> #[trigger] out.deep_view()[k] == lines.deep_view()[k],
        decreases n - i,
    {
        let ghost old_deep = out.deep_view();
        let line = copy_range(&lines[i], 0, lines[i].len());
        proof {
            assert(lines@[i as int]@.subrange(0, lines@[i as int]@.len() as int) =~= lines@[
                i as int
            ]@);
        }
        out.push(line);
        proof {
            assert(out.deep_view() =~~= old_deep.push(line@));
        }
        i = i + 1;
    }
    proof {
        assert(out.deep_view() =~~= lines.deep_view());
    }
    out
}

/// The pipeline's togglable rules with their trigger probabilities, in
/// percent. The declared application order is fixed: whitespace jitter,
/// then comment injection, then dead-statement injection.
pub struct ObfuscationConfig {
    pub double_spaces_percent: usize,
    pub trailing_percent: usize,
    pub comment_percent: usize,
    pub dead_statement_percent: usize,
}

impl Default for ObfuscationConfig {
    /// The documented default trigger probabilities.
    fn default() -> (r: ObfuscationConfig)
        ensures
            r.double_spaces_percent == 50,
            r.trailing_percent == 30,
            r.comment_percent == 70,
            r.dead_statement_percent == 60,
    {
        ObfuscationConfig {
            double_spaces_percent: 50,
            trailing_percent: 30,
            comment_percent: 70,
            dead_statement_percent: 60,
        }
    }
}

// ---------------------------------------------------------------------------
// Identifier randomization.
// ---------------------------------------------------------------------------
/// A line with every whole-identifier occurrence of `old_id` replaced by
/// `new_id`: the line is read as alternating identifier tokens (maximal runs
/// of identifier bytes) and other bytes, and exactly the tokens equal to
/// `old_id` are replaced, so every occurrence is renamed consistently and no
/// occurrence inside a longer identifier is touched.
pub open spec fn rename_in_line(l: Seq<u8>, old_id: Seq<u8>, new_id: Seq<u8>) -> Seq<u8>
    decreases l.len(),
    via rename_in_line_decreases
{
    if l.len() == 0 {
        Seq::<u8>::empty()
    } else if is_ident_byte(l[0]) {
        let n = ident_len(l);
        let tok = l.take(n);
        (if tok == old_id {
            new_id
        } else {
            tok
        }) + rename_in_line(l.skip(n), old_id, new_id)
    } else {
        seq![l[0]] + rename_in_line(l.drop_first(), old_id, new_id)
    }
}

#[via_fn]
proof fn rename_in_line_decreases(l: Seq<u8>, old_id: Seq<u8>, new_id: Seq<u8>) {
    lemma_ident_len(l);
    if l.len() > 0 {
        lemma_ident_len(l.drop_first());
    }
}

fn rename_line(l: &Vec<u8>, old_id: &Vec<u8>, new_id: &Vec<u8>) -> (r: Vec<u8>)
    ensures
        r@ == rename_in_line(l@, old_id@, new_id@),
{
    let mut out: Vec<u8> = Vec::new();
    let n = l.len();
    let mut pos: usize = 0;
    proof {
        assert(l@.skip(0) =~= l@);
    }
    while pos < n
        invariant
            n == l@.len(),
            pos <= n,
            rename_in_line(l@, old_id@, new_id@) =~= out@ + rename_in_line(
                l@.skip(pos as int),
                old_id@,
                new_id@,
            ),
        decreases n - pos,
    {
        let ghost rem = l@.skip(pos as int);
        let ghost pre = out@;
        proof {
            assert(rem[0] == l@[pos as int]);
            assert(rem.drop_first() =~= l@.skip(pos as int + 1));
        }
        if crate::registry::ident_byte_at(l, pos) {
            let k = ident_len_at(l, pos);
            proof {
                lemma_ident_len(rem);
                lemma_ident_len(rem.drop_first());
                assert(ident_len(rem) == 1 + ident_len(rem.drop_first()));
                assert(k >= 1);
            }
            let tok = copy_range(l, pos, pos + k);
            proof {
                assert(tok@ =~= rem.take(k as int));
                assert(rem.skip(k as int) =~= l@.skip(pos as int + k as int));
            }
            if bytes_equal(&tok, old_id) {
                out.extend_from_slice(new_id.as_slice());
                proof {
                    assert(out@ =~= pre + new_id@);
                }
            } else {
                out.extend_from_slice(tok.as_slice());
                proof {
                    assert(out@ =~= pre + tok@);
                }
            }
            pos = pos + k;
        } else {
            out.push(l[pos]);
            proof {
                assert(out@ =~= pre + seq![rem[0]]);
            }
            pos = pos + 1;
        }
    }
    proof {
        assert(l@.skip(n as int) =~= Seq::<u8>::empty());
    }
    out
}

/// Identifier randomization: replaces every whole-identifier occurrence of
/// `old_id` with `new_id` on every line, consistently across the text.
pub fn rename_identifier(lines: &Vec<Vec<u8>>, old_id: &Vec<u8>, new_id: &Vec<u8>) -> (r: Vec<
    Vec<u8>,
>)
    requires
        is_ident(old_id@),
        is_ident(new_id@),
    ensures
        r.deep_view().len() == lines.deep_view().len(),
        forall|k: int|
            0 <= k < lines.deep_view().len() ==> #[trigger] r.deep_view()[k] == rename_in_line(
                lines.deep_view()[k],
                old_id@,
                new_id@,
            ),
{
    let mut out: Vec<Vec<u8>> = Vec::new();
    let n = lines.len();
    let mut i: usize = 0;
    while i < n
        invariant
            n == lines@.len(),
            lines@.len() == lines.deep_view().len(),
            i <= n,
            out.deep_view().len() == i,
            forall|k: int|
                0 <= k < i ==> #[trigger] out.deep_view()[k] == rename_in_line(
                    lines.deep_view()[k],
                    old_id@,
                    new_id@,
                ),
        decreases n - i,
    {
        let ghost old_deep = out.deep_view();
        let line = rename_line(&lines[i], old_id, new_id);
        proof {
            assert(lines@[i as int]@ == lines.deep_view()[i as int]);
        }
        out.push(line);
        proof {
            assert(out.deep_view() =~~= old_deep.push(line@));
        }
        i = i + 1;
    }
    out
}

/// Draws a random lowercase identifier whose length lies within the given
/// bounds, for use as a replacement name.
pub fn generate_random_name(min_len: usize, max_len: usize) -> (r: Vec<u8>)
    requires
        1 <= min_len <= max_len < usize::MAX,
    ensures
        min_len <= r@.len() <= max_len,
        is_ident(r@),
        forall|i: int| 0 <= i < r@.len() ==> 97 <= #[trigger] r@[i] <= 122,
{
    let len = min_len + random_below(max_len - min_len + 1);
    let mut out: Vec<u8> = Vec::new();
    let mut i: usize = 0;
    while i < len
        invariant
            i <= len,
            out@.len() == i,
            forall|k: int| 0 <= k < i ==> 97 <= #[trigger] out@[k] <= 122,
        decreases len - i,
    {
        let d = random_below(26);
        let b = (97 + d) as u8;
        out.push(b);
        i = i + 1;
    }
    out
}

/// No identifier token of `l` equals `id`.
pub open spec fn token_free(l: Seq<u8>, id: Seq<u8>) -> bool
    decreases l.len(),
    via token_free_decreases
{
    if l.len() == 0 {
        true
    } else if is_ident_byte(l[0]) {
        let n = ident_len(l);
        l.take(n) != id && token_free(l.skip(n), id)
    } else {
        token_free(l.drop_first(), id)
    }
}

#[via_fn]
proof fn token_free_decreases(l: Seq<u8>, id: Seq<u8>) {
    lemma_ident_len(l);
    if l.len() > 0 {
        lemma_ident_len(l.drop_first());
    }
}

pub proof fn lemma_ident_len_concat(t: Seq<u8>, w: Seq<u8>)
    requires
        t.len() >= 1,
        forall|k: int| 0 <= k < t.len() ==> is_ident_byte(#[trigger] t[k]),
        w.len() == 0 || !is_ident_byte(w[0]),
    ensures
        ident_len(t + w) == t.len(),
    decreases t.len(),
{
    let c = t + w;
    assert(c[0] == t[0]);
    if t.len() == 1 {
        assert(c.drop_first() =~= w);
        if w.len() == 0 {
            assert(ident_len(w) == 0);
        } else {
            assert(ident_len(w) == 0);
        }
    } else {
        assert(c.drop_first() =~= t.drop_first() + w);
        assert forall|k: int| 0 <= k < t.drop_first().len() implies is_ident_byte(
            #[trigger] t.drop_first()[k],
        ) by {
            assert(t.drop_first()[k] == t[k + 1]);
        }
        lemma_ident_len_concat(t.drop_first(), w);
    }
}

/// The renaming rule is invertible: renaming `old_id` to a fresh identifier
/// `new_id` (one that occurs in the line as no token) and then renaming it
/// back restores the line exactly — the textual mutation loses nothing of
/// the original.
pub proof fn lemma_rename_round_trip(l: Seq<u8>, a: Seq<u8>, b: Seq<u8>)
    requires
        is_ident(a),
        is_ident(b),
        token_free(l, b),
    ensures
        rename_in_line(rename_in_line(l, a, b), b, a) == l,
    decreases l.len(),
{
    lemma_ident_len(l);
    if l.len() == 0 {
        assert(rename_in_line(l, a, b) =~= Seq::<u8>::empty());
    } else if is_ident_byte(l[0]) {
        let n = ident_len(l);
        let tok = l.take(n);
        let rest = l.skip(n);
        assert(n >= 1);
        assert(tok != b);
        assert(token_free(rest, b));
        lemma_rename_round_trip(rest, a, b);
        let r1 = rename_in_line(rest, a, b);
        let fst = if tok == a {
            b
        } else {
            tok
        };
        assert(rename_in_line(l, a, b) == fst + r1);
        // the replacement token is again a maximal token: what follows it is
        // the image of `rest`, whose first byte is not an identifier byte
        assert(rest.len() == 0 || !is_ident_byte(rest[0]));
        if rest.len() > 0 {
            lemma_ident_len(rest);
            assert(r1 == seq![rest[0]] + rename_in_line(rest.drop_first(), a, b));
            assert(r1[0] == rest[0]);
        }
        assert(forall|k: int| 0 <= k < fst.len() ==> is_ident_byte(#[trigger] fst[k]));
        assert(fst.len() >= 1);
        lemma_ident_len_concat(fst, r1);
        let c = fst + r1;
        assert(c[0] == fst[0] && is_ident_byte(c[0]));
        assert(ident_len(c) == fst.len());
        assert(c.take(fst.len() as int) =~= fst);
        assert(c.skip(fst.len() as int) =~= r1);
        if tok == a {
            assert(c.take(ident_len(c)) == b);
            assert(rename_in_line(c, b, a) == a + rename_in_line(r1, b, a));
            assert(a + rest =~= l);
        } else {
            assert(c.take(ident_len(c)) == tok);
            assert(rename_in_line(c, b, a) == tok + rename_in_line(r1, b, a));
            assert(tok + rest =~= l);
        }
    } else {
        assert(token_free(l.drop_first(), b));
        lemma_rename_round_trip(l.drop_first(), a, b);
        let r1 = rename_in_line(l.drop_first(), a, b);
        assert(rename_in_line(l, a, b) == seq![l[0]] + r1);
        let c = seq![l[0]] + r1;
        assert(c[0] == l[0] && !is_ident_byte(c[0]));
        assert(c.drop_first() =~= r1);
        assert(rename_in_line(c, b, a) == seq![l[0]] + rename_in_line(r1, b, a));
        assert(seq![l[0]] + l.drop_first() =~= l);
    }
}

// ---------------------------------------------------------------------------
// Executable essence, for holding one text against another.
// ---------------------------------------------------------------------------
fn dead_zero_vec() -> (v: Vec<u8>)
    ensures
        v@ == dead_discard_zero(),
{
    let mut v: Vec<u8> = Vec::new();
    v.push(108);
    v.push(101);
    v.push(116);
    v.push(32);
    v.push(95);
    v.push(32);
    v.push(61);
    v.push(32);
    v.push(48);
    v.push(59);
    proof {
        assert(v@ =~= dead_discard_zero());
    }
    v
}

fn dead_one_vec() -> (v: Vec<u8>)
    ensures
        v@ == dead_discard_one(),
{
    let mut v: Vec<u8> = Vec::new();
    v.push(108);
    v.push(101);
    v.push(116);
    v.push(32);
    v.push(95);
    v.push(120);
    v.push(32);
    v.push(61);
    v.push(32);
    v.push(49);
    v.push(59);
    proof {
        assert(v@ =~= dead_discard_one());
    }
    v
}

fn is_inert_norm_exec(n: &Vec<u8>) -> (r: bool)
    ensures
        r == is_inert_norm(n@),
{
    if n.len() == 0 {
        return true;
    }
    if n.len() >= 2 && n[0] == SLASH && n[1] == SLASH {
        return true;
    }
    if n.len() >= 3 && n[0] == SPACE && n[1] == SLASH && n[2] == SLASH {
        return true;
    }
    let d0 = dead_zero_vec();
    let d1 = dead_one_vec();
    if bytes_equal(n, &d0) || bytes_equal(n, &d1) {
        return true;
    }
    if n[0] == SPACE {
        let tail = copy_range(n, 1, n.len());
        proof {
            assert(n@ =~= seq![n@[0]] + tail@);
            if tail@ == dead_discard_zero() {
                assert(n@ =~= seq![SPACE] + dead_discard_zero());
            }
            if tail@ == dead_discard_one() {
                assert(n@ =~= seq![SPACE] + dead_discard_one());
            }
            if n@ == seq![SPACE] + dead_discard_zero() {
                assert(tail@ =~= dead_discard_zero());
            }
            if n@ == seq![SPACE] + dead_discard_one() {
                assert(tail@ =~= dead_discard_one());
            }
        }
        if bytes_equal(&tail, &d0) || bytes_equal(&tail, &d1) {
            return true;
        }
        proof {
            assert(!is_inert_norm(n@));
        }
        return false;
    }
    proof {
        assert(n@[0] != SPACE);
        assert(!is_inert_norm(n@));
    }
    false
}

/// Computes the essence of a text given as lines: each line normalized,
/// inert lines discarded. Two texts carry the same program exactly when
/// their essences are equal.
pub fn essence_lines(lines: &Vec<Vec<u8>>) -> (r: Vec<Vec<u8>>)
    ensures
        r.deep_view() == essence(lines.deep_view()),
{
    let mut out: Vec<Vec<u8>> = Vec::new();
    let n = lines.len();
    let mut i: usize = 0;
    proof {
        assert(lines.deep_view().skip(0) =~= lines.deep_view());
    }
    while i < n
        invariant
            n == lines@.len(),
            lines@.len() == lines.deep_view().len(),
            i <= n,
            essence(lines.deep_view()) =~~= out.deep_view() + essence(
                lines.deep_view().skip(i as int),
            ),
        decreases n - i,
    {
        let ghost rem = lines.deep_view().skip(i as int);
        let ghost old_deep = out.deep_view();
        proof {
            assert(rem[0] == lines.deep_view()[i as int]);
            assert(rem.drop_first() =~= lines.deep_view().skip(i as int + 1));
            assert(lines@[i as int]@ == lines.deep_view()[i as int]);
        }
        let norm = normalize_line_exec(&lines[i]);
        if is_inert_norm_exec(&norm) {
            proof {
                assert(essence(rem) == essence(rem.drop_first()));
            }
        } else {
            let ghost nv = norm@;
            out.push(norm);
            proof {
                assert(out.deep_view() =~~= old_deep.push(nv));
                assert(essence(rem) == seq![nv] + essence(rem.drop_first()));
                assert(old_deep + (seq![nv] + essence(rem.drop_first())) =~~= (old_deep + seq![nv])
                    + essence(rem.drop_first()));
                assert(old_deep + seq![nv] =~~= out.deep_view());
            }
        }
        i = i + 1;
    }
    proof {
        assert(lines.deep_view().skip(n as int) =~= Seq::<Seq<u8>>::empty());
        assert(essence(Seq::<Seq<u8>>::empty()) == Seq::<Seq<u8>>::empty());
        assert(out.deep_view() + Seq::<Seq<u8>>::empty() =~~= out.deep_view());
    }
    out
}

/// Runs the whole pipeline in its fixed declared order, each rule toggled by
/// its own probability draw. Whatever the draws, the output's essence equals
/// the input's: the rules never change what the text says, only how it is
/// written.
pub fn obfuscate(lines: &Vec<Vec<u8>>, config: &ObfuscationConfig) -> (r: Vec<Vec<u8>>)
    requires
        lines@.len() + 16 <= usize::MAX,
    ensures
        essence(r.deep_view()) == essence(lines.deep_view()),
{
    let mut out = jitter_whitespace(lines, config.double_spaces_percent, config.trailing_percent);
    if random_below(100) < config.comment_percent {
        out = inject_comments(&out);
    }
    if random_below(100) < config.dead_statement_percent {
        out = inject_dead_statements(&out);
    }
    out
}

} // verus!
