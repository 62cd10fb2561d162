//! The code synthesizer: combines the shared signature with exactly the
//! selected candidate body into one emittable function text. The discarded
//! candidates contribute nothing: the output equals the rendered signature
//! frame around the one selected body, byte for byte, so no trace of any
//! other candidate can reach the artifact.
use crate::registry::{
    body_of_line, ident_len, kw_arrow, kw_colon, kw_function, kw_pub,
    parse_declaration, parse_header, parse_params, variant_line_ok, DeclarationView,
    FunctionSignature, Param, ParamView, SignatureView, Variant, COMMA, LBRACE, LPAREN, RBRACE,
    RPAREN,
};
use crate::errors::BuildError;
use crate::obfuscation::lemma_ident_len_concat;
use crate::text::{
    find_byte, is_ident, is_ident_byte, is_ident_start, join_lines, lemma_find_byte,
    lemma_lines_of_join, occurs,
    occurs_at, NEWLINE, SPACE,
};
use vstd::prelude::*;

verus! {

/// ", "
pub open spec fn kw_comma() -> Seq<u8> {
    seq![44u8, 32u8]
}

/// The parameter list text: `name: type` segments joined by `, `.
pub open spec fn render_params(ps: Seq<ParamView>) -> Seq<u8>
    decreases ps.len(),
{
    if ps.len() == 0 {
        Seq::<u8>::empty()
    } else if ps.len() == 1 {
        ps[0].name + kw_colon() + ps[0].ty
    } else {
        ps[0].name + kw_colon() + ps[0].ty + kw_comma() + render_params(ps.drop_first())
    }
}

/// The header text of a signature, exactly as the registry grammar reads it.
pub open spec fn render_signature(sig: SignatureView) -> Seq<u8> {
    (if sig.is_public {
        kw_pub()
    } else {
        Seq::<u8>::empty()
    }) + kw_function() + sig.name + seq![LPAREN] + render_params(sig.params) + kw_arrow()
        + sig.ret_type
}

/// The complete emitted function text: the signature header, an opening
/// brace, the selected body on its own line, and a closing brace.
pub open spec fn synthesized_text(sig: SignatureView, body: Seq<u8>) -> Seq<u8> {
    render_signature(sig) + seq![SPACE, LBRACE, NEWLINE] + body + seq![NEWLINE, RBRACE]
}

/// The same emitted function, as its three line groups: the header line,
/// the body, and the closing brace line.
pub open spec fn synthesized_lines(sig: SignatureView, body: Seq<u8>) -> Seq<Seq<u8>> {
    seq![render_signature(sig) + seq![SPACE, LBRACE], body, seq![RBRACE]]
}

fn render_params_exec(params: &Vec<Param>) -> (r: Vec<u8>)
    ensures
        r@ == render_params(Seq::new(params@.len(), |i: int| params@[i]@)),
{
    let ghost psv = Seq::new(params@.len(), |i: int| params@[i]@);
    let mut out: Vec<u8> = Vec::new();
    let n = params.len();
    let mut i: usize = 0;
    proof {
        assert(psv.skip(0) =~= psv);
    }
    while i < n
        invariant
            n == params@.len(),
            psv == Seq::new(params@.len(), |j: int| params@[j]@),
            i <= n,
            render_params(psv) =~= out@ + render_params(psv.skip(i as int)),
        decreases n - i,
    {
        let ghost pre = out@;
        let ghost rest = psv.skip(i as int);
        proof {
            assert(rest[0] == psv[i as int]);
            assert(rest.drop_first() =~= psv.skip(i as int + 1));
        }
        let p = &params[i];
        out.extend_from_slice(p.name.as_slice());
        out.push(58);
        out.push(32);
        out.extend_from_slice(p.ty.as_slice());
        proof {
            assert(out@ =~= pre + p@.name + kw_colon() + p@.ty);
            assert(p@ == psv[i as int]);
        }
        if i + 1 < n {
            out.push(44);
            out.push(32);
            proof {
                assert(rest.len() >= 2);
                assert(out@ =~= pre + (rest[0].name + kw_colon() + rest[0].ty + kw_comma()));
                assert(render_params(rest) =~= rest[0].name + kw_colon() + rest[0].ty + kw_comma()
                    + render_params(rest.drop_first()));
                assert(render_params(psv) =~= out@ + render_params(psv.skip(i as int + 1)));
            }
        } else {
            proof {
                assert(rest.len() == 1);
                assert(render_params(rest) == rest[0].name + kw_colon() + rest[0].ty);
                assert(psv.skip(i as int + 1) =~= Seq::<ParamView>::empty());
                assert(render_params(psv) =~= out@ + render_params(psv.skip(i as int + 1)));
            }
        }
        i = i + 1;
    }
    proof {
        assert(psv.skip(n as int) =~= Seq::<ParamView>::empty());
        assert(render_params(psv) =~= out@);
    }
    out
}

/// Renders a signature into its header text.
pub fn render_signature_exec(sig: &FunctionSignature) -> (r: Vec<u8>)
    ensures
        r@ == render_signature(sig@),
{
    let mut out: Vec<u8> = Vec::new();
    if sig.is_public {
        out.push(112);
        out.push(117);
        out.push(98);
        out.push(32);
        proof {
            assert(out@ =~= kw_pub());
        }
    }
    out.push(102);
    out.push(117);
    out.push(110);
    out.push(99);
    out.push(116);
    out.push(105);
    out.push(111);
    out.push(110);
    out.push(32);
    let ghost lead = if sig.is_public {
        kw_pub()
    } else {
        Seq::<u8>::empty()
    };
    proof {
        assert(out@ =~= lead + kw_function());
    }
    out.extend_from_slice(sig.name.as_slice());
    out.push(LPAREN);
    let params = render_params_exec(&sig.params);
    out.extend_from_slice(params.as_slice());
    out.push(RPAREN);
    out.push(SPACE);
    out.push(45);
    out.push(62);
    out.push(SPACE);
    out.extend_from_slice(sig.ret_type.as_slice());
    proof {
        assert(out@ =~= render_signature(sig@));
    }
    out
}

/// Emits the function text holding the signature and exactly the candidate
/// at `selected`; every other candidate is discarded without trace. Fails
/// with `IndexOutOfRange` if and only if `selected` is at or past the
/// variant count — a selection-policy bug, never expected in correct use.
pub fn synthesize(signature: &FunctionSignature, variants: &Vec<Variant>, selected: usize) -> (r:
    Result<Vec<u8>, BuildError>)
    ensures
        (r is Ok) == (selected < variants@.len()),
        selected >= variants@.len() ==> r == Result::<Vec<u8>, BuildError>::Err(
            BuildError::IndexOutOfRange,
        ),
        r is Ok ==> r->Ok_0@ == synthesized_text(signature@, variants@[selected as int].body@),
{
    if selected >= variants.len() {
        return Err(BuildError::IndexOutOfRange);
    }
    let mut out = render_signature_exec(signature);
    out.push(SPACE);
    out.push(LBRACE);
    out.push(NEWLINE);
    out.extend_from_slice(variants[selected].body.as_slice());
    out.push(NEWLINE);
    out.push(RBRACE);
    proof {
        assert(out@ =~= synthesized_text(signature@, variants@[selected as int].body@));
    }
    Ok(out)
}

/// Emits the same function as `synthesize`, split into its lines for the
/// obfuscation pipeline: header line, body line, closing brace line.
pub fn synthesize_lines(signature: &FunctionSignature, variants: &Vec<Variant>, selected: usize) -> (r:
    Result<Vec<Vec<u8>>, BuildError>)
    ensures
        (r is Ok) == (selected < variants@.len()),
        selected >= variants@.len() ==> r == Result::<Vec<Vec<u8>>, BuildError>::Err(
            BuildError::IndexOutOfRange,
        ),
        r is Ok ==> r->Ok_0.deep_view() == synthesized_lines(
            signature@,
            variants@[selected as int].body@,
        ),
{
    if selected >= variants.len() {
        return Err(BuildError::IndexOutOfRange);
    }
    let mut header = render_signature_exec(signature);
    header.push(SPACE);
    header.push(LBRACE);
    let body = crate::text::copy_range(&variants[selected].body, 0, variants[selected].body.len());
    let mut close: Vec<u8> = Vec::new();
    close.push(RBRACE);
    let mut out: Vec<Vec<u8>> = Vec::new();
    out.push(header);
    out.push(body);
    out.push(close);
    proof {
        assert(variants@[selected as int].body@.subrange(
            0,
            variants@[selected as int].body@.len() as int,
        ) =~= variants@[selected as int].body@);
        assert(out.deep_view() =~~= synthesized_lines(
            signature@,
            variants@[selected as int].body@,
        ));
    }
    Ok(out)
}

/// Joining the synthesized lines yields exactly the synthesized text: the
/// line form and the flat form agree.
pub proof fn lemma_synthesized_lines_join(sig: SignatureView, body: Seq<u8>)
    ensures
        join_lines(synthesized_lines(sig, body)) == synthesized_text(sig, body),
{
    let ls = synthesized_lines(sig, body);
    let l2 = ls.drop_first();
    let l3 = l2.drop_first();
    assert(l2 =~= seq![body, seq![RBRACE]]);
    assert(l3 =~= seq![seq![RBRACE]]);
    assert(join_lines(l3) == l3[0]);
    assert(join_lines(l2) == l2[0] + seq![NEWLINE] + join_lines(l2.drop_first()));
    assert(join_lines(ls) == ls[0] + seq![NEWLINE] + join_lines(ls.drop_first()));
    assert(join_lines(ls) =~= synthesized_text(sig, body));
}

// ---------------------------------------------------------------------------
// Rendering a declaration, and the round trip through the registry.
// ---------------------------------------------------------------------------
/// A parameter the declaration grammar can express: an identifier name and a
/// nonempty type text free of the grammar's own delimiters.
pub open spec fn wf_param(p: ParamView) -> bool {
    is_ident(p.name) && p.ty.len() >= 1 && forall|k: int|
        0 <= k < p.ty.len() ==> #[trigger] p.ty[k] != COMMA && p.ty[k] != RPAREN && p.ty[k]
            != NEWLINE
}

/// A signature the declaration grammar can express.
pub open spec fn wf_signature(sig: SignatureView) -> bool {
    is_ident(sig.name) && sig.ret_type.len() >= 1 && (forall|k: int|
        0 <= k < sig.ret_type.len() ==> #[trigger] sig.ret_type[k] != NEWLINE) && (forall|i: int|
        0 <= i < sig.params.len() ==> wf_param(#[trigger] sig.params[i]))
}

/// A candidate body a declaration line can carry.
pub open spec fn wf_body(b: Seq<u8>) -> bool {
    forall|k: int| 0 <= k < b.len() ==> #[trigger] b[k] != NEWLINE
}

/// A declaration the grammar can express: a well-formed signature and at
/// least one well-formed candidate body.
pub open spec fn wf_declaration(d: DeclarationView) -> bool {
    wf_signature(d.signature) && d.variants.len() >= 1 && forall|i: int|
        0 <= i < d.variants.len() ==> wf_body(#[trigger] d.variants[i])
}

/// One candidate line of a rendered declaration.
pub open spec fn render_variant_line(b: Seq<u8>) -> Seq<u8> {
    seq![LBRACE, SPACE] + b + seq![SPACE, RBRACE]
}

pub open spec fn render_variant_lines(vs: Seq<Seq<u8>>) -> Seq<Seq<u8>>
    decreases vs.len(),
{
    if vs.len() == 0 {
        Seq::<Seq<u8>>::empty()
    } else {
        seq![render_variant_line(vs[0])] + render_variant_lines(vs.drop_first())
    }
}

/// The full declaration text for a signature and its candidates, in the
/// registry's grammar: the header line, then one candidate line per variant.
pub open spec fn render_declaration(d: DeclarationView) -> Seq<u8> {
    join_lines(seq![render_signature(d.signature)] + render_variant_lines(d.variants))
}

proof fn lemma_find_byte_pinned(t: Seq<u8>, b: u8, j: int)
    requires
        0 <= j <= t.len(),
        forall|k: int| 0 <= k < j ==> t[k] != b,
        j < t.len() ==> t[j] == b,
    ensures
        j < t.len() ==> find_byte(t, b) == j,
        j == t.len() ==> find_byte(t, b) == t.len(),
{
    lemma_find_byte(t, b);
    let f = find_byte(t, b);
    if j < t.len() {
        if f < j {
            assert(t[f] != b);
            assert(false);
        }
        if f > j {
            assert(t[j] != b);
            assert(false);
        }
    } else {
        if f < t.len() {
            assert(t[f] != b);
            assert(false);
        }
    }
}

proof fn lemma_render_params_bytes(ps: Seq<ParamView>)
    requires
        forall|i: int| 0 <= i < ps.len() ==> wf_param(#[trigger] ps[i]),
    ensures
        forall|k: int|
            0 <= k < render_params(ps).len() ==> #[trigger] render_params(ps)[k] != RPAREN
                && render_params(ps)[k] != NEWLINE,
    decreases ps.len(),
{
    if ps.len() == 0 {
    } else if ps.len() == 1 {
        let p = ps[0];
        let r = render_params(ps);
        assert(r == p.name + kw_colon() + p.ty);
        assert forall|k: int| 0 <= k < r.len() implies #[trigger] r[k] != RPAREN && r[k]
            != NEWLINE by {
            if k < p.name.len() {
                assert(is_ident_byte(p.name[k]));
            } else if k < p.name.len() + 2 {
                assert(r[k] == kw_colon()[k - p.name.len()]);
            } else {
                assert(r[k] == p.ty[k - p.name.len() - 2]);
            }
        }
    } else {
        let p = ps[0];
        let rest = ps.drop_first();
        assert forall|i: int| 0 <= i < rest.len() implies wf_param(#[trigger] rest[i]) by {
            assert(rest[i] == ps[i + 1]);
        }
        lemma_render_params_bytes(rest);
        let r = render_params(ps);
        let rr = render_params(rest);
        assert(r == p.name + kw_colon() + p.ty + kw_comma() + rr);
        let head = p.name.len() + 2 + p.ty.len() + 2;
        assert forall|k: int| 0 <= k < r.len() implies #[trigger] r[k] != RPAREN && r[k]
            != NEWLINE by {
            if k < p.name.len() {
                assert(r[k] == p.name[k]);
                assert(is_ident_byte(p.name[k]));
            } else if k < p.name.len() + 2 {
                assert(r[k] == kw_colon()[k - p.name.len()]);
            } else if k < p.name.len() + 2 + p.ty.len() {
                assert(r[k] == p.ty[k - p.name.len() - 2]);
            } else if k < head {
                assert(r[k] == kw_comma()[k - p.name.len() - 2 - p.ty.len()]);
            } else {
                assert(r[k] == rr[k - head]);
            }
        }
    }
}

proof fn lemma_render_signature_bytes(sig: SignatureView)
    requires
        wf_signature(sig),
    ensures
        forall|k: int|
            0 <= k < render_signature(sig).len() ==> #[trigger] render_signature(sig)[k]
                != NEWLINE,
{
    lemma_render_params_bytes(sig.params);
    let lead = if sig.is_public {
        kw_pub()
    } else {
        Seq::<u8>::empty()
    };
    let r = render_signature(sig);
    let rp = render_params(sig.params);
    let a = lead.len();
    let b = a + 9;
    let c = b + sig.name.len();
    let d = c + 1;
    let e = d + rp.len();
    let f = e + 5;
    assert forall|k: int| 0 <= k < r.len() implies #[trigger] r[k] != NEWLINE by {
        if k < a {
            assert(r[k] == kw_pub()[k]);
        } else if k < b {
            assert(r[k] == kw_function()[k - a]);
        } else if k < c {
            assert(r[k] == sig.name[k - b]);
            assert(is_ident_byte(sig.name[k - b]));
        } else if k < d {
            assert(r[k] == LPAREN);
        } else if k < e {
            assert(r[k] == rp[k - d]);
        } else if k < f {
            assert(r[k] == kw_arrow()[k - e]);
        } else {
            assert(r[k] == sig.ret_type[k - f]);
        }
    }
}

#[verifier::rlimit(80)]
proof fn lemma_parse_render_params(ps: Seq<ParamView>)
    requires
        forall|i: int| 0 <= i < ps.len() ==> wf_param(#[trigger] ps[i]),
    ensures
        parse_params(render_params(ps)) == Option::Some(ps),
    decreases ps.len(),
{
    let t = render_params(ps);
    if ps.len() == 0 {
        assert(t.len() == 0);
        assert(ps =~= Seq::<ParamView>::empty());
    } else if ps.len() == 1 {
        let p = ps[0];
        assert(t == p.name + kw_colon() + p.ty);
        assert(t =~= p.name + (kw_colon() + p.ty));
        lemma_ident_len_concat(p.name, kw_colon() + p.ty);
        let n = ident_len(t);
        assert(n == p.name.len());
        assert(t[0] == p.name[0]);
        assert(t.take(n) =~= p.name);
        assert(t.skip(n) =~= kw_colon() + p.ty);
        assert(kw_colon() =~= t.skip(n).subrange(0, 2));
        assert(kw_colon().is_prefix_of(t.skip(n)));
        let r2 = t.skip(n).skip(2);
        assert(r2 =~= p.ty);
        lemma_find_byte_pinned(r2, COMMA, r2.len() as int);
        let m = find_byte(r2, COMMA);
        assert(m == r2.len());
        assert(m != 0);
        let pv = ParamView { name: t.take(n), ty: r2 };
        assert(pv == p);
        assert(seq![pv] =~= ps);
        assert(parse_params(t) == Option::Some(seq![pv]));
    } else {
        let p = ps[0];
        let rest = ps.drop_first();
        assert forall|i: int| 0 <= i < rest.len() implies wf_param(#[trigger] rest[i]) by {
            assert(rest[i] == ps[i + 1]);
        }
        lemma_parse_render_params(rest);
        let rr = render_params(rest);
        assert(rest.len() >= 1);
        assert(rr.len() >= 4);
        assert(t == p.name + kw_colon() + p.ty + kw_comma() + rr);
        assert(t =~= p.name + (kw_colon() + p.ty + kw_comma() + rr));
        lemma_ident_len_concat(p.name, kw_colon() + p.ty + kw_comma() + rr);
        let n = ident_len(t);
        assert(n == p.name.len());
        assert(t[0] == p.name[0]);
        assert(t.take(n) =~= p.name);
        assert(t.skip(n) =~= kw_colon() + (p.ty + kw_comma() + rr));
        assert(kw_colon() =~= t.skip(n).subrange(0, 2));
        assert(kw_colon().is_prefix_of(t.skip(n)));
        let r2 = t.skip(n).skip(2);
        assert(r2 =~= p.ty + kw_comma() + rr);
        assert(r2[p.ty.len() as int] == COMMA);
        assert(forall|k: int| 0 <= k < p.ty.len() ==> #[trigger] r2[k] == p.ty[k]);
        lemma_find_byte_pinned(r2, COMMA, p.ty.len() as int);
        let m = find_byte(r2, COMMA);
        assert(m == p.ty.len());
        assert(m != 0);
        assert(m + 1 < r2.len());
        assert(r2[m + 1] == SPACE);
        assert(r2.take(m) =~= p.ty);
        assert(r2.skip(m + 2) =~= rr);
        let pv = ParamView { name: t.take(n), ty: r2.take(m) };
        assert(pv == p);
        assert(parse_params(t) == Option::Some(seq![pv] + rest));
        assert(seq![pv] + rest =~= ps);
    }
}

/// A well-formed signature's rendering parses back to exactly that
/// signature: the synthesizer's header is a header of the grammar.
#[verifier::rlimit(80)]
pub proof fn lemma_parse_render_signature(sig: SignatureView)
    requires
        wf_signature(sig),
    ensures
        parse_header(render_signature(sig)) == Option::Some(sig),
{
    let l = render_signature(sig);
    let rp = render_params(sig.params);
    let w2 = seq![LPAREN] + rp + kw_arrow() + sig.ret_type;
    if sig.is_public {
        assert(l =~= kw_pub() + (kw_function() + (sig.name + w2)));
        assert(kw_pub() =~= l.subrange(0, 4));
        assert(kw_pub().is_prefix_of(l));
        assert(l.skip(4) =~= kw_function() + (sig.name + w2));
    } else {
        assert(l =~= kw_function() + (sig.name + w2));
        assert(l[0] == 102);
        if kw_pub().is_prefix_of(l) {
            assert(l.subrange(0, 4) == kw_pub());
            assert(l.subrange(0, 4)[0] == l[0]);
            assert(false);
        }
    }
    let r0 = if kw_pub().is_prefix_of(l) {
        l.skip(4)
    } else {
        l
    };
    assert(r0 =~= kw_function() + (sig.name + w2));
    assert(kw_function() =~= r0.subrange(0, 9));
    assert(kw_function().is_prefix_of(r0));
    let r1 = r0.skip(9);
    assert(r1 =~= sig.name + w2);
    assert(w2[0] == LPAREN);
    assert(!is_ident_byte(LPAREN));
    lemma_ident_len_concat(sig.name, w2);
    let n = ident_len(r1);
    assert(n == sig.name.len());
    assert(r1[0] == sig.name[0]);
    assert(is_ident_start(r1[0]));
    assert(r1.take(n) =~= sig.name);
    let r2 = r1.skip(n);
    assert(r2 =~= w2);
    assert(r2.len() >= 1 && r2[0] == LPAREN);
    let r3 = r2.skip(1);
    assert(r3 =~= rp + (kw_arrow() + sig.ret_type));
    lemma_render_params_bytes(sig.params);
    assert(forall|k: int| 0 <= k < rp.len() ==> #[trigger] r3[k] == rp[k]);
    assert(r3[rp.len() as int] == kw_arrow()[0]);
    lemma_find_byte_pinned(r3, RPAREN, rp.len() as int);
    let close = find_byte(r3, RPAREN);
    assert(close == rp.len());
    assert(close < r3.len());
    assert(r3.take(close) =~= rp);
    let tail = r3.skip(close);
    assert(tail =~= kw_arrow() + sig.ret_type);
    assert(kw_arrow() =~= tail.subrange(0, 5));
    assert(kw_arrow().is_prefix_of(tail));
    let ret = tail.skip(5);
    assert(ret =~= sig.ret_type);
    assert(ret.len() != 0);
    lemma_parse_render_params(sig.params);
    assert(parse_params(r3.take(close)) == Option::Some(sig.params));
    assert(parse_header(l) == Option::Some(
        SignatureView {
            is_public: sig.is_public,
            name: r1.take(n),
            params: sig.params,
            ret_type: ret,
        },
    ));
    assert(SignatureView {
        is_public: sig.is_public,
        name: r1.take(n),
        params: sig.params,
        ret_type: ret,
    } == sig);
}

proof fn lemma_render_variant_lines_props(vs: Seq<Seq<u8>>)
    requires
        forall|i: int| 0 <= i < vs.len() ==> wf_body(#[trigger] vs[i]),
    ensures
        render_variant_lines(vs).len() == vs.len(),
        forall|i: int|
            0 <= i < vs.len() ==> #[trigger] render_variant_lines(vs)[i] == render_variant_line(
                vs[i],
            ),
        forall|i: int|
            0 <= i < vs.len() ==> variant_line_ok(#[trigger] render_variant_lines(vs)[i])
                && body_of_line(render_variant_lines(vs)[i]) == vs[i],
        forall|i: int, k: int|
            0 <= i < vs.len() && 0 <= k < render_variant_lines(vs)[i].len()
                ==> #[trigger] render_variant_lines(vs)[i][k] != NEWLINE,
    decreases vs.len(),
{
    if vs.len() > 0 {
        let rest = vs.drop_first();
        assert forall|i: int| 0 <= i < rest.len() implies wf_body(#[trigger] rest[i]) by {
            assert(rest[i] == vs[i + 1]);
        }
        lemma_render_variant_lines_props(rest);
        let rl = render_variant_lines(vs);
        assert forall|i: int| 0 <= i < vs.len() implies #[trigger] rl[i] == render_variant_line(
            vs[i],
        ) by {
            if i > 0 {
                assert(rl[i] == render_variant_lines(rest)[i - 1]);
                assert(rest[i - 1] == vs[i]);
            }
        }
        assert forall|i: int| 0 <= i < vs.len() implies variant_line_ok(#[trigger] rl[i])
            && body_of_line(rl[i]) == vs[i] by {
            let line = render_variant_line(vs[i]);
            assert(line.len() == vs[i].len() + 4);
            assert(line[0] == LBRACE);
            assert(line[1] == SPACE);
            assert(line[line.len() - 2] == SPACE);
            assert(line[line.len() - 1] == RBRACE);
            assert(body_of_line(line) =~= vs[i]);
        }
        assert forall|i: int, k: int|
            0 <= i < vs.len() && 0 <= k < rl[i].len() implies #[trigger] rl[i][k] != NEWLINE by {
            let line = render_variant_line(vs[i]);
            assert(rl[i] == line);
            if 2 <= k < line.len() - 2 {
                assert(line[k] == vs[i][k - 2]);
            }
        }
    }
}

/// The registry inverts the renderer: a well-formed declaration, rendered
/// into the grammar, parses back to exactly itself. In particular, the
/// header frame the synthesizer emits is a sentence of the grammar.
pub proof fn lemma_parse_render_round_trip(d: DeclarationView)
    requires
        wf_declaration(d),
    ensures
        parse_declaration(render_declaration(d)) == Result::<DeclarationView, BuildError>::Ok(d),
{
    let header = render_signature(d.signature);
    let vlines = render_variant_lines(d.variants);
    let ls = seq![header] + vlines;
    lemma_render_signature_bytes(d.signature);
    lemma_render_variant_lines_props(d.variants);
    assert forall|i: int, k: int| 0 <= i < ls.len() && 0 <= k < ls[i].len() implies #[trigger] ls[i][k]
        != NEWLINE by {
        if i == 0 {
            assert(ls[0] == header);
        } else {
            assert(ls[i] == vlines[i - 1]);
        }
    }
    lemma_lines_of_join(ls);
    assert(crate::text::lines_of(render_declaration(d)) == ls);
    assert(ls[0] == header);
    lemma_parse_render_signature(d.signature);
    let vls = ls.drop_first();
    assert(vls =~= vlines);
    assert(forall|i: int| 0 <= i < vls.len() ==> variant_line_ok(#[trigger] vls[i]));
    assert(vls.len() >= 1);
    assert(Seq::new(vls.len(), |i: int| body_of_line(vls[i])) =~~= d.variants);
    assert(parse_declaration(render_declaration(d)) == Result::<DeclarationView, BuildError>::Ok(
        DeclarationView {
            signature: d.signature,
            variants: Seq::new(vls.len(), |i: int| body_of_line(vls[i])),
        },
    ));
}

/// The emitted text always contains the selected body: it stands exactly
/// after the signature frame's opening bytes.
pub proof fn lemma_output_contains_selected(sig: SignatureView, body: Seq<u8>)
    ensures
        occurs(synthesized_text(sig, body), body),
{
    let t = synthesized_text(sig, body);
    let off = render_signature(sig).len() as int + 3;
    assert(t.subrange(off, off + body.len() as int) =~= body);
    assert(occurs_at(t, body, off));
}

} // verus!
