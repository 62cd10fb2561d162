//! The variant registry: parses a declaration block into a function
//! signature plus an ordered, nonempty sequence of candidate bodies.
//!
//! The declaration format is line-structured. The first line is the header
//!
//! ```text
//! [pub ]function <name>(<param>: <type>, ...) -> <returnType>
//! ```
//!
//! and every following line declares one candidate body, wrapped as
//! `{ <body> }`. At least one body line is required; zero bodies is the
//! `EmptyVariantSet` error, and a text that does not match the format at all
//! is `MalformedDeclaration`. No semantic validation across bodies is
//! performed: whether the candidates behave alike is the author's
//! responsibility, by design.
use crate::errors::BuildError;
use crate::text::{
    copy_range, find_byte, is_ident_byte, is_ident_start, lines_of, split_lines, SPACE,
};
use vstd::prelude::*;

verus! {

pub const LPAREN: u8 = 40;

pub const RPAREN: u8 = 41;

pub const LBRACE: u8 = 123;

pub const RBRACE: u8 = 125;

pub const COMMA: u8 = 44;

// ---------------------------------------------------------------------------
// Keyword byte sequences of the declaration grammar.
// ---------------------------------------------------------------------------
/// "pub "
pub open spec fn kw_pub() -> Seq<u8> {
    seq![112u8, 117u8, 98u8, 32u8]
}

/// "function "
pub open spec fn kw_function() -> Seq<u8> {
    seq![102u8, 117u8, 110u8, 99u8, 116u8, 105u8, 111u8, 110u8, 32u8]
}

/// ": "
pub open spec fn kw_colon() -> Seq<u8> {
    seq![58u8, 32u8]
}

/// ") -> "
pub open spec fn kw_arrow() -> Seq<u8> {
    seq![RPAREN, SPACE, 45u8, 62u8, SPACE]
}

fn make_kw_pub() -> (v: Vec<u8>)
    ensures
        v@ == kw_pub(),
{
    let mut v: Vec<u8> = Vec::new();
    v.push(112);
    v.push(117);
    v.push(98);
    v.push(32);
    proof {
        assert(v@ =~= kw_pub());
    }
    v
}

fn make_kw_function() -> (v: Vec<u8>)
    ensures
        v@ == kw_function(),
{
    let mut v: Vec<u8> = Vec::new();
    v.push(102);
    v.push(117);
    v.push(110);
    v.push(99);
    v.push(116);
    v.push(105);
    v.push(111);
    v.push(110);
    v.push(32);
    proof {
        assert(v@ =~= kw_function());
    }
    v
}

fn make_kw_colon() -> (v: Vec<u8>)
    ensures
        v@ == kw_colon(),
{
    let mut v: Vec<u8> = Vec::new();
    v.push(58);
    v.push(32);
    proof {
        assert(v@ =~= kw_colon());
    }
    v
}

fn make_kw_arrow() -> (v: Vec<u8>)
    ensures
        v@ == kw_arrow(),
{
    let mut v: Vec<u8> = Vec::new();
    v.push(RPAREN);
    v.push(SPACE);
    v.push(45);
    v.push(62);
    v.push(SPACE);
    proof {
        assert(v@ =~= kw_arrow());
    }
    v
}

// ---------------------------------------------------------------------------
// The parsed data model.
// ---------------------------------------------------------------------------
/// The mathematical content of one parameter: its name and its type text.
pub struct ParamView {
    pub name: Seq<u8>,
    pub ty: Seq<u8>,
}

/// The mathematical content of a signature.
pub struct SignatureView {
    pub is_public: bool,
    pub name: Seq<u8>,
    pub params: Seq<ParamView>,
    pub ret_type: Seq<u8>,
}

/// The mathematical content of a declaration: the signature and the ordered
/// candidate bodies.
pub struct DeclarationView {
    pub signature: SignatureView,
    pub variants: Seq<Seq<u8>>,
}

/// One parameter of a declared function: a name and the text of its type.
pub struct Param {
    pub name: Vec<u8>,
    pub ty: Vec<u8>,
}

impl View for Param {
    type V = ParamView;

    open spec fn view(&self) -> ParamView {
        ParamView { name: self.name@, ty: self.ty@ }
    }
}

/// A function signature: name, ordered parameter list, return type and
/// visibility marker. Immutable once parsed; every candidate body of one
/// declaration shares it.
pub struct FunctionSignature {
    pub is_public: bool,
    pub name: Vec<u8>,
    pub params: Vec<Param>,
    pub ret_type: Vec<u8>,
}

impl View for FunctionSignature {
    type V = SignatureView;

    open spec fn view(&self) -> SignatureView {
        SignatureView {
            is_public: self.is_public,
            name: self.name@,
            params: Seq::new(self.params@.len(), |i: int| self.params@[i]@),
            ret_type: self.ret_type@,
        }
    }
}

/// One candidate body, opaque to the registry, together with its 0-based
/// position in the declaration.
pub struct Variant {
    pub body: Vec<u8>,
    pub position: usize,
}

/// A parsed declaration: the shared signature and the ordered candidates.
pub struct Declaration {
    pub signature: FunctionSignature,
    pub variants: Vec<Variant>,
}

impl View for Declaration {
    type V = DeclarationView;

    open spec fn view(&self) -> DeclarationView {
        DeclarationView {
            signature: self.signature@,
            variants: Seq::new(self.variants@.len(), |i: int| self.variants@[i].body@),
        }
    }
}

impl Declaration {
    /// Each variant records the position it holds in the declaration.
    pub open spec fn positions_indexed(&self) -> bool {
        forall|i: int|
            0 <= i < self.variants@.len() ==> (#[trigger] self.variants@[i]).position == i
    }
}

// ---------------------------------------------------------------------------
// The grammar, stated as spec-level parsing functions.
// ---------------------------------------------------------------------------
/// The length of the identifier-byte run at the front of `s`.
pub open spec fn ident_len(s: Seq<u8>) -> int
    decreases s.len(),
{
    if s.len() == 0 {
        0
    } else if !is_ident_byte(s[0]) {
        0
    } else {
        1 + ident_len(s.drop_first())
    }
}

pub proof fn lemma_ident_len(s: Seq<u8>)
    ensures
        0 <= ident_len(s) <= s.len(),
        forall|k: int| 0 <= k < ident_len(s) ==> is_ident_byte(#[trigger] s[k]),
        ident_len(s) < s.len() ==> !is_ident_byte(s[ident_len(s)]),
    decreases s.len(),
{
    if s.len() != 0 && is_ident_byte(s[0]) {
        lemma_ident_len(s.drop_first());
        assert forall|k: int| 0 <= k < ident_len(s) implies is_ident_byte(#[trigger] s[k]) by {
            if k > 0 {
                assert(is_ident_byte(s.drop_first()[k - 1]));
            }
        }
        if ident_len(s) < s.len() {
            assert(s[ident_len(s)] == s.drop_first()[ident_len(s.drop_first())]);
        }
    }
}

/// The parameter list grammar: empty, or `name: type` segments joined by
/// `, `, where each name is an identifier and each type is nonempty and
/// holds no comma.
pub open spec fn parse_params(t: Seq<u8>) -> Option<Seq<ParamView>>
    decreases t.len(),
    via parse_params_decreases
{
    if t.len() == 0 {
        Option::Some(Seq::<ParamView>::empty())
    } else {
        let n = ident_len(t);
        if n == 0 || !is_ident_start(t[0]) {
            Option::None
        } else {
            let pname = t.take(n);
            let r = t.skip(n);
            if !kw_colon().is_prefix_of(r) {
                Option::None
            } else {
                let r2 = r.skip(2);
                let m = find_byte(r2, COMMA);
                if m == 0 {
                    Option::None
                } else if m == r2.len() {
                    Option::Some(seq![ParamView { name: pname, ty: r2 }])
                } else if m + 1 < r2.len() && r2[m + 1] == SPACE {
                    match parse_params(r2.skip(m + 2)) {
                        Option::None => Option::None,
                        Option::Some(ps) => Option::Some(
                            seq![ParamView { name: pname, ty: r2.take(m) }] + ps,
                        ),
                    }
                } else {
                    Option::None
                }
            }
        }
    }
}

#[via_fn]
proof fn parse_params_decreases(t: Seq<u8>) {
    lemma_ident_len(t);
    if t.len() != 0 {
        let n = ident_len(t);
        if n != 0 && is_ident_start(t[0]) {
            let r = t.skip(n);
            if kw_colon().is_prefix_of(r) {
                crate::text::lemma_find_byte(r.skip(2), COMMA);
            }
        }
    }
}

/// The header grammar: an optional `pub ` marker, the `function ` keyword,
/// an identifier, a parenthesised parameter list, ` -> ` and a nonempty
/// return type.
pub open spec fn parse_header(l: Seq<u8>) -> Option<SignatureView> {
    let vis = kw_pub().is_prefix_of(l);
    let r0 = if vis {
        l.skip(4)
    } else {
        l
    };
    if !kw_function().is_prefix_of(r0) {
        Option::None
    } else {
        let r1 = r0.skip(9);
        let n = ident_len(r1);
        if n == 0 || !is_ident_start(r1[0]) {
            Option::None
        } else {
            let name = r1.take(n);
            let r2 = r1.skip(n);
            if !(r2.len() >= 1 && r2[0] == LPAREN) {
                Option::None
            } else {
                let r3 = r2.skip(1);
                let close = find_byte(r3, RPAREN);
                if close == r3.len() {
                    Option::None
                } else {
                    let params_text = r3.take(close);
                    let tail = r3.skip(close);
                    if !kw_arrow().is_prefix_of(tail) {
                        Option::None
                    } else {
                        let ret = tail.skip(5);
                        if ret.len() == 0 {
                            Option::None
                        } else {
                            match parse_params(params_text) {
                                Option::None => Option::None,
                                Option::Some(ps) => Option::Some(
                                    SignatureView {
                                        is_public: vis,
                                        name,
                                        params: ps,
                                        ret_type: ret,
                                    },
                                ),
                            }
                        }
                    }
                }
            }
        }
    }
}

/// A candidate body line: `{ <body> }` with the body otherwise opaque.
pub open spec fn variant_line_ok(l: Seq<u8>) -> bool {
    l.len() >= 4 && l[0] == LBRACE && l[1] == SPACE && l[l.len() - 2] == SPACE && l[l.len() - 1]
        == RBRACE
}

/// The body carried by a candidate line.
pub open spec fn body_of_line(l: Seq<u8>) -> Seq<u8> {
    l.subrange(2, l.len() - 2)
}

/// The declaration grammar over a whole text: header line, then one
/// candidate line per variant. This pins exactly which texts parse, to
/// which value, and which error every other text draws.
pub open spec fn parse_declaration(t: Seq<u8>) -> Result<DeclarationView, BuildError> {
    let ls = lines_of(t);
    match parse_header(ls[0]) {
        Option::None => Result::Err(BuildError::MalformedDeclaration),
        Option::Some(sig) => {
            let vls = ls.drop_first();
            if !(forall|i: int| 0 <= i < vls.len() ==> variant_line_ok(#[trigger] vls[i])) {
                Result::Err(BuildError::MalformedDeclaration)
            } else if vls.len() == 0 {
                Result::Err(BuildError::EmptyVariantSet)
            } else {
                Result::Ok(
                    DeclarationView {
                        signature: sig,
                        variants: Seq::new(vls.len(), |i: int| body_of_line(vls[i])),
                    },
                )
            }
        },
    }
}

// ---------------------------------------------------------------------------
// The executable parser, proved equal to the grammar above.
// ---------------------------------------------------------------------------
fn is_ident_byte_exec(b: u8) -> (r: bool)
    ensures
        r == is_ident_byte(b),
{
    (97 <= b && b <= 122) || (65 <= b && b <= 90) || b == 95 || (48 <= b && b <= 57)
}

fn is_ident_start_exec(b: u8) -> (r: bool)
    ensures
        r == is_ident_start(b),
{
    (97 <= b && b <= 122) || (65 <= b && b <= 90) || b == 95
}

pub(crate) fn ident_byte_at(l: &Vec<u8>, i: usize) -> (r: bool)
    requires
        i < l@.len(),
    ensures
        r == is_ident_byte(l@[i as int]),
{
    is_ident_byte_exec(l[i])
}

/// The length of the identifier run in `l` starting at `from`.
pub(crate) fn ident_len_at(l: &Vec<u8>, from: usize) -> (r: usize)
    requires
        from <= l@.len(),
    ensures
        r == ident_len(l@.skip(from as int)),
        from + r <= l@.len(),
{
    let n = l.len();
    let mut i: usize = from;
    proof {
        assert(l@.skip(from as int).skip(0) =~= l@.skip(from as int));
    }
    while i < n && ident_byte_at(l, i)
        invariant
            from <= i <= n,
            n == l@.len(),
            ident_len(l@.skip(from as int)) == i - from + ident_len(l@.skip(i as int)),
        decreases n - i,
    {
        proof {
            assert(l@.skip(i as int)[0] == l@[i as int]);
            assert(l@.skip(i as int).drop_first() =~= l@.skip(i as int + 1));
        }
        i = i + 1;
    }
    proof {
        if i < n {
            assert(l@.skip(i as int)[0] == l@[i as int]);
            assert(ident_len(l@.skip(i as int)) == 0);
        } else {
            assert(l@.skip(i as int).len() == 0);
        }
        lemma_ident_len(l@.skip(from as int));
    }
    i - from
}

/// The position of the first occurrence of `b` at or after `from`, or the
/// text's length if there is none.
fn find_byte_at(l: &Vec<u8>, from: usize, b: u8) -> (r: usize)
    requires
        from <= l@.len(),
    ensures
        r - from == find_byte(l@.skip(from as int), b),
        from <= r <= l@.len(),
{
    let n = l.len();
    let mut i: usize = from;
    proof {
        assert(l@.skip(from as int).skip(0) =~= l@.skip(from as int));
    }
    while i < n && l[i] != b
        invariant
            from <= i <= n,
            n == l@.len(),
            find_byte(l@.skip(from as int), b) == i - from + find_byte(l@.skip(i as int), b),
        decreases n - i,
    {
        proof {
            assert(l@.skip(i as int)[0] == l@[i as int]);
            assert(l@.skip(i as int).drop_first() =~= l@.skip(i as int + 1));
        }
        i = i + 1;
    }
    proof {
        if i < n {
            assert(l@.skip(i as int)[0] == l@[i as int]);
            assert(find_byte(l@.skip(i as int), b) == 0);
        } else {
            assert(l@.skip(i as int).len() == 0);
        }
        crate::text::lemma_find_byte(l@.skip(from as int), b);
    }
    i
}

/// Whether `pat` is a prefix of `l` from position `pos` on.
fn prefix_at(l: &Vec<u8>, pos: usize, pat: &Vec<u8>) -> (r: bool)
    requires
        pos <= l@.len(),
    ensures
        r == pat@.is_prefix_of(l@.skip(pos as int)),
{
    if pat.len() > l.len() - pos {
        proof {
            assert(l@.skip(pos as int).len() < pat@.len());
        }
        return false;
    }
    let r = crate::text::matches_at(l, pos, pat);
    proof {
        assert(l@.skip(pos as int).take(pat@.len() as int) =~= l@.subrange(
            pos as int,
            pos as int + pat@.len() as int,
        ));
    }
    r
}

/// Parses a parameter list text.
fn parse_params_exec(t: &Vec<u8>) -> (r: Option<Vec<Param>>)
    ensures
        (r is Some) == (parse_params(t@) is Some),
        r is Some ==> Option::Some(Seq::new(r->0@.len(), |i: int| r->0@[i]@)) == parse_params(t@),
{
    let kwc = make_kw_colon();
    let tn = t.len();
    let mut acc: Vec<Param> = Vec::new();
    let mut pos: usize = 0;
    proof {
        assert(t@.skip(0) =~= t@);
        assert(Seq::new(acc@.len(), |i: int| acc@[i]@) =~= Seq::<ParamView>::empty());
    }
    while pos < tn
        invariant
            kwc@ == kw_colon(),
            tn == t@.len(),
            pos <= t@.len(),
            (parse_params(t@.skip(pos as int)) is Some) ==> (parse_params(t@) is Some)
                && parse_params(t@) == Option::Some(
                Seq::new(acc@.len(), |i: int| acc@[i]@) + parse_params(t@.skip(pos as int))->0,
            ),
            (parse_params(t@.skip(pos as int)) is None) ==> (parse_params(t@) is None),
        decreases t@.len() - pos,
    {
        let ghost rem = t@.skip(pos as int);
        let n = ident_len_at(t, pos);
        proof {
            lemma_ident_len(rem);
        }
        if n == 0 {
            proof {
                assert(parse_params(rem) is None);
            }
            return None;
        }
        proof {
            assert(rem[0] == t@[pos as int]);
        }
        if !is_ident_start_exec(t[pos]) {
            proof {
                assert(parse_params(rem) is None);
            }
            return None;
        }
        let pname = copy_range(t, pos, pos + n);
        proof {
            assert(pname@ =~= rem.take(n as int));
        }
        let colon_ok = prefix_at(t, pos + n, &kwc);
        proof {
            let a = rem.skip(n as int);
            let b = t@.skip(pos as int + n as int);
            assert(a =~= b);
            assert(colon_ok == kw_colon().is_prefix_of(b));
            assert(colon_ok == kw_colon().is_prefix_of(a));
        }
        if !colon_ok {
            proof {
                assert(parse_params(rem) is None);
            }
            return None;
        }
        proof {
            assert(kw_colon().is_prefix_of(rem.skip(n as int)));
            assert(rem.skip(n as int).len() >= 2);
        }
        let tystart = pos + n + 2;
        proof {
            assert(rem.skip(n as int).skip(2) =~= t@.skip(tystart as int));
        }
        let m_abs = find_byte_at(t, tystart, COMMA);
        let ghost r2 = rem.skip(n as int).skip(2);
        let ghost m = find_byte(r2, COMMA);
        proof {
            assert(r2 =~= t@.skip(tystart as int));
            assert(m == m_abs - tystart);
            crate::text::lemma_find_byte(r2, COMMA);
        }
        if m_abs == tystart {
            proof {
                assert(m == 0);
                assert(parse_params(rem) is None);
            }
            return None;
        }
        if m_abs == tn {
            let ty = copy_range(t, tystart, tn);
            proof {
                assert(ty@ =~= r2);
            }
            let ghost old_acc = Seq::new(acc@.len(), |i: int| acc@[i]@);
            acc.push(Param { name: pname, ty });
            proof {
                let pv = ParamView { name: rem.take(n as int), ty: r2 };
                assert(parse_params(rem) == Option::Some(seq![pv]));
                assert(Seq::new(acc@.len(), |i: int| acc@[i]@) =~= old_acc + seq![pv]);
            }
            return Some(acc);
        }
        if m_abs + 1 >= tn {
            proof {
                assert(m < r2.len());
                assert(!(m + 1 < r2.len()));
                assert(parse_params(rem) is None);
            }
            return None;
        }
        proof {
            assert(r2[m + 1] == t@[m_abs + 1]);
        }
        if t[m_abs + 1] != SPACE {
            proof {
                assert(parse_params(rem) is None);
            }
            return None;
        }
        let ty = copy_range(t, tystart, m_abs);
        proof {
            assert(ty@ =~= r2.take(m));
        }
        let ghost old_acc = Seq::new(acc@.len(), |i: int| acc@[i]@);
        acc.push(Param { name: pname, ty });
        proof {
            let pv = ParamView { name: rem.take(n as int), ty: r2.take(m) };
            assert(Seq::new(acc@.len(), |i: int| acc@[i]@) =~= old_acc.push(pv));
            assert(r2.skip(m + 2) =~= t@.skip(m_abs + 2));
            assert(parse_params(rem) == (match parse_params(r2.skip(m + 2)) {
                Option::None => Option::None::<Seq<ParamView>>,
                Option::Some(ps) => Option::Some(seq![pv] + ps),
            }));
            if parse_params(t@.skip(m_abs + 2)) is Some {
                assert(old_acc + (seq![pv] + parse_params(t@.skip(m_abs + 2))->0) =~= old_acc.push(
                    pv,
                ) + parse_params(t@.skip(m_abs + 2))->0);
            }
        }
        pos = m_abs + 2;
    }
    proof {
        assert(t@.skip(pos as int).len() == 0);
        assert(parse_params(t@.skip(pos as int)) == Option::Some(Seq::<ParamView>::empty()));
        assert(Seq::new(acc@.len(), |i: int| acc@[i]@) + Seq::<ParamView>::empty() =~= Seq::new(
            acc@.len(),
            |i: int| acc@[i]@,
        ));
    }
    Some(acc)
}

/// Parses a header line into a signature.
#[verifier::rlimit(60)]
fn parse_header_exec(l: &Vec<u8>) -> (r: Option<FunctionSignature>)
    ensures
        (r is Some) == (parse_header(l@) is Some),
        r is Some ==> Option::Some(r->0@) == parse_header(l@),
{
    let ln = l.len();
    let kwp = make_kw_pub();
    let kwf = make_kw_function();
    let kwa = make_kw_arrow();
    proof {
        assert(l@.skip(0) =~= l@);
    }
    let is_public = prefix_at(l, 0, &kwp);
    let mut pos: usize = 0;
    if is_public {
        pos = 4;
    }
    let ghost r0 = if is_public {
        l@.skip(4)
    } else {
        l@
    };
    proof {
        assert(r0 =~= l@.skip(pos as int));
    }
    if !prefix_at(l, pos, &kwf) {
        return None;
    }
    let ghost r1 = r0.skip(9);
    let namestart = pos + 9;
    proof {
        assert(r1 =~= l@.skip(namestart as int));
    }
    let n = ident_len_at(l, namestart);
    if n == 0 {
        return None;
    }
    proof {
        lemma_ident_len(r1);
        assert(r1[0] == l@[namestart as int]);
    }
    if !is_ident_start_exec(l[namestart]) {
        return None;
    }
    let name = copy_range(l, namestart, namestart + n);
    proof {
        assert(name@ =~= r1.take(n as int));
    }
    let parenpos = namestart + n;
    let ghost r2 = r1.skip(n as int);
    proof {
        assert(r2 =~= l@.skip(parenpos as int));
        if r2.len() >= 1 {
            assert(r2[0] == l@[parenpos as int]);
        }
    }
    if parenpos >= ln {
        return None;
    }
    if l[parenpos] != LPAREN {
        return None;
    }
    let ghost r3 = r2.skip(1);
    let paramstart = parenpos + 1;
    proof {
        assert(r3 =~= l@.skip(paramstart as int));
    }
    let close_abs = find_byte_at(l, paramstart, RPAREN);
    let ghost close = find_byte(r3, RPAREN);
    proof {
        assert(close == close_abs - paramstart);
        crate::text::lemma_find_byte(r3, RPAREN);
    }
    if close_abs == ln {
        return None;
    }
    let params_text = copy_range(l, paramstart, close_abs);
    proof {
        assert(params_text@ =~= r3.take(close));
    }
    let ghost tail = r3.skip(close);
    proof {
        assert(tail =~= l@.skip(close_abs as int));
    }
    if !prefix_at(l, close_abs, &kwa) {
        return None;
    }
    let retstart = close_abs + 5;
    let ghost ret = tail.skip(5);
    proof {
        assert(kw_arrow().len() == 5);
        assert(tail.len() >= 5);
        assert(ret =~= l@.skip(retstart as int));
    }
    if retstart >= ln {
        proof {
            assert(ret.len() == 0);
        }
        return None;
    }
    let ret_type = copy_range(l, retstart, ln);
    proof {
        assert(ret_type@ =~= ret);
        assert(ret.len() != 0);
    }
    match parse_params_exec(&params_text) {
        None => None,
        Some(params) => {
            let sig = FunctionSignature { is_public, name, params, ret_type };
            proof {
                assert(Seq::new(sig.params@.len(), |i: int| sig.params@[i]@) == parse_params(
                    params_text@,
                )->0);
                assert(Option::Some(sig@) == parse_header(l@));
            }
            Some(sig)
        },
    }
}

/// Parses one candidate line, yielding its body.
fn parse_variant_line(l: &Vec<u8>) -> (r: Option<Vec<u8>>)
    ensures
        (r is Some) == variant_line_ok(l@),
        r is Some ==> r->0@ == body_of_line(l@),
{
    if l.len() < 4 {
        return None;
    }
    if l[0] != LBRACE || l[1] != SPACE {
        return None;
    }
    if l[l.len() - 2] != SPACE || l[l.len() - 1] != RBRACE {
        return None;
    }
    Some(copy_range(l, 2, l.len() - 2))
}

/// Parses a declaration text into a signature and its ordered candidates.
/// Exactly the texts that `parse_declaration` accepts are accepted, with the
/// same value; every rejected text draws the same error the grammar assigns:
/// `MalformedDeclaration` for a text outside the format, `EmptyVariantSet`
/// for a well-formed header with zero candidate lines.
pub fn parse(text: &Vec<u8>) -> (r: Result<Declaration, BuildError>)
    ensures
        (r is Ok) == (parse_declaration(text@) is Ok),
        r is Ok ==> Result::<DeclarationView, BuildError>::Ok(r->Ok_0@) == parse_declaration(text@),
        r is Ok ==> r->Ok_0.positions_indexed() && r->Ok_0@.variants.len() >= 1,
        r is Err ==> Result::<DeclarationView, BuildError>::Err(r->Err_0) == parse_declaration(text@),
{
    let ls = split_lines(text);
    proof {
        crate::text::lemma_lines_of_nonempty(text@);
        assert(ls.deep_view()[0] == ls@[0]@);
    }
    let header = &ls[0];
    let sig = match parse_header_exec(header) {
        None => {
            return Err(BuildError::MalformedDeclaration);
        },
        Some(sig) => sig,
    };
    let ghost vls = lines_of(text@).drop_first();
    let mut variants: Vec<Variant> = Vec::new();
    let mut i: usize = 1;
    while i < ls.len()
        invariant
            1 <= i <= ls@.len(),
            ls.deep_view() == lines_of(text@),
            ls@.len() == lines_of(text@).len(),
            vls == lines_of(text@).drop_first(),
            forall|k: int| 0 <= k < i - 1 ==> variant_line_ok(#[trigger] vls[k]),
            variants@.len() == i - 1,
            forall|k: int|
                0 <= k < i - 1 ==> (#[trigger] variants@[k]).body@ == body_of_line(vls[k])
                    && variants@[k].position == k,
        decreases ls@.len() - i,
    {
        proof {
            assert(ls.deep_view()[i as int] == ls@[i as int]@);
            assert(vls[i as int - 1] == lines_of(text@)[i as int]);
        }
        match parse_variant_line(&ls[i]) {
            None => {
                proof {
                    assert(!variant_line_ok(vls[i as int - 1]));
                }
                return Err(BuildError::MalformedDeclaration);
            },
            Some(body) => {
                variants.push(Variant { body, position: i - 1 });
            },
        }
        i = i + 1;
    }
    if variants.len() == 0 {
        proof {
            assert(vls.len() == 0);
        }
        return Err(BuildError::EmptyVariantSet);
    }
    let d = Declaration { signature: sig, variants };
    proof {
        assert(forall|k: int| 0 <= k < vls.len() ==> variant_line_ok(#[trigger] vls[k]));
        assert(Seq::new(d.variants@.len(), |j: int| d.variants@[j].body@) =~~= Seq::new(
            vls.len(),
            |j: int| body_of_line(vls[j]),
        ));
        assert(Result::<DeclarationView, BuildError>::Ok(d@) == parse_declaration(text@));
    }
    Ok(d)
}

} // verus!
