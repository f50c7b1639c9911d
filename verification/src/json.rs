use vstd::prelude::*;

use crate::codec::{
    contains_char, find_char, find_char_spec, lemma_find_is, lemma_find_props, lemma_join_free,
    parse_value, parse_value_exec, render_value, value_encodable,
};
use crate::error::SshdConfigError;
use crate::keyword::{EntryVal, KeywordType, KwVal};

verus! {

/// One JSON value slot: quoted value text, or `null` for a valueless
/// keyword.
pub open spec fn render_json_value(v: KwVal) -> Seq<char> {
    match v {
        KwVal::Absent => "null"@,
        _ => seq!['"'] + render_value(v) + seq!['"'],
    }
}

/// One `"key":value` member.
pub open spec fn render_member(k: Seq<char>, v: KwVal) -> Seq<char> {
    seq!['"'] + k + seq!['"', ':'] + render_json_value(v)
}

/// Members joined by commas.
pub open spec fn render_members(ps: Seq<(Seq<char>, KwVal)>) -> Seq<char>
    decreases ps.len(),
{
    if ps.len() == 0 {
        Seq::empty()
    } else if ps.len() == 1 {
        render_member(ps[0].0, ps[0].1)
    } else {
        render_member(ps[0].0, ps[0].1) + seq![','] + render_members(ps.drop_first())
    }
}

/// The whole structured document: a flat JSON object.
pub open spec fn render_json(ps: Seq<(Seq<char>, KwVal)>) -> Seq<char> {
    seq!['{'] + render_members(ps) + seq!['}']
}

/// Parse one or more members. `None` is a malformed document.
pub open spec fn parse_members(s: Seq<char>) -> Option<Seq<(Seq<char>, KwVal)>>
    decreases s.len(), 1int,
{
    if s.len() == 0 || s[0] != '"' {
        None
    } else {
        let r1 = s.subrange(1, s.len() as int);
        let qi = find_char_spec(r1, '"');
        if !(0 <= qi && qi < r1.len()) {
            None
        } else {
            let k = r1.subrange(0, qi);
            let after = r1.subrange(qi + 1, r1.len() as int);
            if k.len() == 0 || after.len() == 0 || after[0] != ':' {
                None
            } else {
                let vs = after.subrange(1, after.len() as int);
                if vs.len() > 0 && vs[0] == '"' {
                    let vr = vs.subrange(1, vs.len() as int);
                    let vq = find_char_spec(vr, '"');
                    if !(0 <= vq && vq < vr.len()) {
                        None
                    } else {
                        parse_members_tail(
                            k,
                            parse_value(vr.subrange(0, vq)),
                            vr.subrange(vq + 1, vr.len() as int),
                        )
                    }
                } else if vs.len() >= 4 && vs.subrange(0, 4) == "null"@ {
                    parse_members_tail(k, KwVal::Absent, vs.subrange(4, vs.len() as int))
                } else {
                    None
                }
            }
        }
    }
}

/// After one member: the document may end here or continue after a comma.
pub open spec fn parse_members_tail(k: Seq<char>, v: KwVal, tail: Seq<char>) -> Option<
    Seq<(Seq<char>, KwVal)>,
>
    decreases tail.len(), 0int,
{
    if tail.len() == 0 {
        Some(seq![(k, v)])
    } else if tail[0] == ',' {
        match parse_members(tail.subrange(1, tail.len() as int)) {
            None => None,
            Some(t) => Some(seq![(k, v)] + t),
        }
    } else {
        None
    }
}

/// Parse a flat JSON object into (keyword, value) pairs.
pub open spec fn parse_json(s: Seq<char>) -> Option<Seq<(Seq<char>, KwVal)>> {
    if s.len() < 2 || s[0] != '{' || s[s.len() - 1] != '}' {
        None
    } else {
        let inner = s.subrange(1, s.len() - 1);
        if inner.len() == 0 {
            Some(Seq::empty())
        } else {
            parse_members(inner)
        }
    }
}

/// Values whose JSON rendering reads back as itself: beyond the directive
/// conditions, nothing may hold a quote.
pub open spec fn value_json_encodable(v: KwVal) -> bool {
    &&& value_encodable(v)
    &&& match v {
        KwVal::Flag(_) => true,
        KwVal::Single(s) => !contains_char(s, '"'),
        KwVal::Multi(vs) => forall|i: int| 0 <= i < vs.len() ==> !contains_char(
            #[trigger] vs[i],
            '"',
        ),
        KwVal::Absent => true,
    }
}

/// Keys that can stand in a JSON member.
pub open spec fn keyword_json_encodable(k: Seq<char>) -> bool {
    k.len() > 0 && !contains_char(k, '"')
}

/// Every pair fits the JSON document form.
pub open spec fn pairs_json_encodable(ps: Seq<(Seq<char>, KwVal)>) -> bool {
    forall|i: int|
        0 <= i < ps.len() ==> keyword_json_encodable((#[trigger] ps[i]).0) && value_json_encodable(
            ps[i].1,
        )
}

/// The word `null` and the quote facts the proofs need.
proof fn lemma_json_words()
    ensures
        "null"@.len() == 4,
        "null"@[0] == 'n',
        !contains_char("yes"@, '"'),
        !contains_char("no"@, '"'),
{
    reveal_strlit("null");
    reveal_strlit("yes");
    reveal_strlit("no");
    if contains_char("yes"@, '"') {
        let i = choose|i: int| 0 <= i < "yes"@.len() && "yes"@[i] == '"';
        assert(i == 0 || i == 1 || i == 2);
        assert(false);
    }
    if contains_char("no"@, '"') {
        let i = choose|i: int| 0 <= i < "no"@.len() && "no"@[i] == '"';
        assert(i == 0 || i == 1);
        assert(false);
    }
}

/// A JSON-encodable value renders to quote-free text.
proof fn lemma_render_value_no_quote(v: KwVal)
    requires
        value_json_encodable(v),
    ensures
        !contains_char(render_value(v), '"'),
{
    lemma_json_words();
    match v {
        KwVal::Flag(_) => {},
        KwVal::Single(_) => {},
        KwVal::Multi(vs) => {
            lemma_join_free(vs, '"');
        },
        KwVal::Absent => {
            if contains_char(render_value(v), '"') {
                let i = choose|i: int|
                    0 <= i < render_value(v).len() && render_value(v)[i] == '"';
            }
        },
    }
}

/// Parsing the rendering of members returns exactly the pairs.
pub proof fn lemma_members_round_trip(ps: Seq<(Seq<char>, KwVal)>)
    requires
        ps.len() >= 1,
        pairs_json_encodable(ps),
    ensures
        parse_members(render_members(ps)) == Some(ps),
    decreases ps.len(), 1int,
{
    lemma_json_words();
    let k = ps[0].0;
    let v = ps[0].1;
    let m = render_member(k, v);
    let s = render_members(ps);
    let jv = render_json_value(v);
    // shape of the rendered member
    assert(m == seq!['"'] + k + seq!['"', ':'] + jv);
    let rest: Seq<char> = if ps.len() == 1 {
        Seq::empty()
    } else {
        seq![','] + render_members(ps.drop_first())
    };
    assert(s =~= m + rest);
    assert(s[0] == '"');
    let r1 = s.subrange(1, s.len() as int);
    assert forall|j: int| 0 <= j < k.len() implies r1[j] != '"' by {
        assert(r1[j] == k[j]);
        if r1[j] == '"' {
            assert(contains_char(k, '"'));
        }
    }
    assert(r1[k.len() as int] == '"');
    lemma_find_is(r1, '"', k.len() as int);
    assert(r1.subrange(0, k.len() as int) =~= k);
    let after = r1.subrange(k.len() as int + 1, r1.len() as int);
    assert(after[0] == ':');
    let vs = after.subrange(1, after.len() as int);
    match v {
        KwVal::Absent => {
            assert(jv == "null"@);
            assert(vs =~= "null"@ + rest);
            assert(vs[0] == 'n');
            assert(vs.subrange(0, 4) =~= "null"@);
            let tail = vs.subrange(4, vs.len() as int);
            assert(tail =~= rest);
            lemma_members_tail(ps, k, v, tail);
        },
        _ => {
            let rv = render_value(v);
            assert(jv == seq!['"'] + rv + seq!['"']);
            assert(vs =~= seq!['"'] + rv + seq!['"'] + rest);
            assert(vs[0] == '"');
            let vr = vs.subrange(1, vs.len() as int);
            lemma_render_value_no_quote(v);
            assert forall|j: int| 0 <= j < rv.len() implies vr[j] != '"' by {
                assert(vr[j] == rv[j]);
                if vr[j] == '"' {
                    assert(contains_char(rv, '"'));
                }
            }
            assert(vr[rv.len() as int] == '"');
            lemma_find_is(vr, '"', rv.len() as int);
            assert(vr.subrange(0, rv.len() as int) =~= rv);
            let tail = vr.subrange(rv.len() as int + 1, vr.len() as int);
            assert(tail =~= rest);
            crate::codec::lemma_value_reparse(v);
            lemma_members_tail(ps, k, parse_value(rv), tail);
        },
    }
}

/// The continuation after the first member parses to the remaining pairs.
proof fn lemma_members_tail(ps: Seq<(Seq<char>, KwVal)>, k: Seq<char>, v: KwVal, tail: Seq<char>)
    requires
        ps.len() >= 1,
        pairs_json_encodable(ps),
        k == ps[0].0,
        v == ps[0].1,
        tail == if ps.len() == 1 {
            Seq::<char>::empty()
        } else {
            seq![','] + render_members(ps.drop_first())
        },
    ensures
        parse_members_tail(k, v, tail) == Some(ps),
    decreases ps.len(), 0int,
{
    if ps.len() == 1 {
        assert(parse_members_tail(k, v, tail) == Some(seq![(k, v)]));
        assert(seq![(k, v)] =~= ps);
    } else {
        assert(tail[0] == ',');
        assert(tail.subrange(1, tail.len() as int) =~= render_members(ps.drop_first()));
        assert forall|i: int|
            0 <= i < ps.drop_first().len() implies keyword_json_encodable(
            (#[trigger] ps.drop_first()[i]).0,
        ) && value_json_encodable(ps.drop_first()[i].1) by {
            assert(ps.drop_first()[i] == ps[i + 1]);
        }
        lemma_members_round_trip(ps.drop_first());
        assert(seq![(k, v)] + ps.drop_first() =~= ps);
    }
}

/// Round trip of the structured codec: decoding the encoding of well-formed
/// pairs returns exactly those pairs.
pub proof fn lemma_json_round_trip(ps: Seq<(Seq<char>, KwVal)>)
    requires
        pairs_json_encodable(ps),
    ensures
        parse_json(render_json(ps)) == Some(ps),
{
    let s = render_json(ps);
    assert(s[0] == '{');
    assert(s[s.len() - 1] == '}');
    let inner = s.subrange(1, s.len() - 1);
    assert(inner =~= render_members(ps));
    if ps.len() == 0 {
        assert(render_members(ps).len() == 0);
    } else {
        lemma_members_round_trip(ps);
        assert(inner.len() > 0) by {
            assert(render_member(ps[0].0, ps[0].1).len() > 0);
            if ps.len() >= 2 {
                assert(render_members(ps).len() >= render_member(ps[0].0, ps[0].1).len());
            }
        }
    }
}

} // verus!

verus! {

/// One more member at the end adds one comma (after a first member) and its
/// rendering.
proof fn lemma_render_members_push(ps: Seq<(Seq<char>, KwVal)>, p: (Seq<char>, KwVal))
    ensures
        ps.len() == 0 ==> render_members(ps.push(p)) == render_member(p.0, p.1),
        ps.len() >= 1 ==> render_members(ps.push(p)) == render_members(ps) + seq![',']
            + render_member(p.0, p.1),
    decreases ps.len(),
{
    let s = ps.push(p);
    if ps.len() == 0 {
        assert(s.len() == 1);
        assert(s[0] == p);
    } else if ps.len() == 1 {
        assert(s[0] == ps[0]);
        assert(s.drop_first() =~= seq![p]);
        assert(render_members(s.drop_first()) == render_member(p.0, p.1));
        assert(render_members(s) =~= render_members(ps) + seq![','] + render_member(p.0, p.1));
    } else {
        assert(s[0] == ps[0]);
        assert(s.drop_first() =~= ps.drop_first().push(p));
        lemma_render_members_push(ps.drop_first(), p);
        assert(render_members(s) =~= render_members(ps) + seq![','] + render_member(p.0, p.1));
    }
}

/// Append the JSON value slot for one keyword value.
fn encode_json_value(v: &KeywordType, out: &mut String)
    ensures
        final(out)@ == old(out)@ + render_json_value(v@),
{
    let absent = match v {
        KeywordType::Absent => true,
        _ => false,
    };
    if absent {
        out.append("null");
    } else {
        out.append("\"");
        crate::codec::encode_value(v, out);
        out.append("\"");
        proof {
            reveal_strlit("\"");
            assert("\""@ =~= seq!['"']);
            assert(out@ =~= old(out)@ + render_json_value(v@));
        }
    }
}

/// Render pairs as a flat JSON object.
pub fn render_json_pairs(ps: &Vec<(String, KeywordType)>) -> (r: String)
    ensures
        r@ == render_json(crate::snapshot::pairs_view(ps@)),
{
    let ghost pv = crate::snapshot::pairs_view(ps@);
    let mut out = String::new();
    out.append("{");
    proof {
        reveal_strlit("{");
        assert("{"@ =~= seq!['{']);
    }
    let n = ps.len();
    let mut i: usize = 0;
    while i < n
        invariant
            i <= n,
            n == ps.len(),
            pv == crate::snapshot::pairs_view(ps@),
            out@ == seq!['{'] + render_members(pv.take(i as int)),
        decreases n - i,
    {
        if i > 0 {
            out.append(",");
            proof {
                reveal_strlit(",");
                assert(","@ =~= seq![',']);
            }
        }
        out.append("\"");
        out.append(ps[i].0.as_str());
        out.append("\":");
        proof {
            reveal_strlit("\"");
            reveal_strlit("\":");
            assert("\""@ =~= seq!['"']);
            assert("\":"@ =~= seq!['"', ':']);
        }
        encode_json_value(&ps[i].1, &mut out);
        proof {
            assert(pv.take(i + 1) =~= pv.take(i as int).push(pv[i as int]));
            lemma_render_members_push(pv.take(i as int), pv[i as int]);
            assert(pv[i as int] == (ps[i as int].0@, ps[i as int].1@));
            assert(out@ =~= seq!['{'] + render_members(pv.take(i + 1)));
        }
        i += 1;
    }
    out.append("}");
    proof {
        reveal_strlit("}");
        assert("}"@ =~= seq!['}']);
        assert(pv.take(n as int) =~= pv);
        assert(out@ =~= render_json(pv));
    }
    out
}

/// The document `get` reports for a snapshot, optionally filtered: every
/// entry's value, or the requested keywords' values in request order.
pub fn export_json(snap: &crate::snapshot::ConfigData, keywords: &Option<Vec<String>>) -> (r:
    Result<String, SshdConfigError>)
    requires
        snap.wf(),
    ensures
        match keywords {
            None => match r {
                Ok(doc) => doc@ == render_json(crate::codec::entry_pairs(snap.entries())),
                Err(_) => false,
            },
            Some(ns) => match r {
                Ok(doc) => (forall|i: int|
                    0 <= i < ns@.len() ==> snap.spec_lookup(#[trigger] ns@[i]@) is Some) && doc@
                    == render_json(
                    Seq::new(
                        ns@.len(),
                        |i: int|
                            (
                                ns@[i]@,
                                match snap.spec_lookup(ns@[i]@) {
                                    Some(e) => e.value,
                                    None => KwVal::Absent,
                                },
                            ),
                    ),
                ),
                Err(e) => e == SshdConfigError::UnknownKeyword && exists|i: int|
                    0 <= i < ns@.len() && snap.spec_lookup(#[trigger] ns@[i]@) is None,
            },
        },
{
    match keywords {
        None => {
            let mut ps: Vec<(String, KeywordType)> = Vec::new();
            let n = snap.config_lookup.len();
            let mut i: usize = 0;
            while i < n
                invariant
                    i <= n,
                    n == snap.config_lookup.len(),
                    ps.len() == i,
                    forall|j: int| 0 <= j < i ==> crate::snapshot::pairs_view(ps@)[j]
                        == crate::codec::entry_pairs(snap.entries())[j],
                decreases n - i,
            {
                let kw = snap.config_lookup[i].0.clone();
                let v = crate::keyword::keyword_type_clone(&snap.config_lookup[i].1.value);
                ps.push((kw, v));
                i += 1;
            }
            proof {
                assert(crate::snapshot::pairs_view(ps@) =~= crate::codec::entry_pairs(
                    snap.entries(),
                ));
            }
            Ok(render_json_pairs(&ps))
        },
        Some(ns) => {
            let mut ps: Vec<(String, KeywordType)> = Vec::new();
            let n = ns.len();
            let ghost sel = Seq::new(
                ns@.len(),
                |i: int|
                    (
                        ns@[i]@,
                        match snap.spec_lookup(ns@[i]@) {
                            Some(e) => e.value,
                            None => KwVal::Absent,
                        },
                    ),
            );
            let mut i: usize = 0;
            while i < n
                invariant
                    i <= n,
                    n == ns.len(),
                    snap.wf(),
                    ps.len() == i,
                    sel == Seq::new(
                        ns@.len(),
                        |j: int|
                            (
                                ns@[j]@,
                                match snap.spec_lookup(ns@[j]@) {
                                    Some(e) => e.value,
                                    None => KwVal::Absent,
                                },
                            ),
                    ),
                    forall|j: int| 0 <= j < i ==> snap.spec_lookup(#[trigger] ns@[j]@) is Some,
                    forall|j: int| 0 <= j < i ==> crate::snapshot::pairs_view(ps@)[j] == sel[j],
                decreases n - i,
            {
                match snap.find(ns[i].as_str()) {
                    Some(e) => {
                        let kw = ns[i].clone();
                        let v = crate::keyword::keyword_type_clone(&e.value);
                        ps.push((kw, v));
                    },
                    None => {
                        return Err(SshdConfigError::UnknownKeyword);
                    },
                }
                i += 1;
            }
            proof {
                assert(crate::snapshot::pairs_view(ps@) =~= sel);
            }
            Ok(render_json_pairs(&ps))
        },
    }
}

/// Executable member parser, proved against `parse_members`.
fn parse_members_exec(s: &str) -> (r: Result<Vec<(String, KeywordType)>, SshdConfigError>)
    ensures
        match r {
            Ok(ps) => parse_members(s@) == Some(crate::snapshot::pairs_view(ps@)),
            Err(e) => parse_members(s@) is None && e == SshdConfigError::ParseError,
        },
    decreases s@.len(),
{
    let n = s.unicode_len();
    if n == 0 {
        return Err(SshdConfigError::ParseError);
    }
    if s.get_char(0) != '"' {
        return Err(SshdConfigError::ParseError);
    }
    let r1 = s.substring_char(1, n);
    let r1n = n - 1;
    let qi = find_char(r1, '"');
    proof {
        lemma_find_props(r1@, '"');
    }
    if qi >= r1n {
        return Err(SshdConfigError::ParseError);
    }
    let kw = r1.substring_char(0, qi).to_owned();
    let after = r1.substring_char(qi + 1, r1n);
    let an = r1n - qi - 1;
    if qi == 0 {
        return Err(SshdConfigError::ParseError);
    }
    if an == 0 {
        return Err(SshdConfigError::ParseError);
    }
    if after.get_char(0) != ':' {
        return Err(SshdConfigError::ParseError);
    }
    let vs = after.substring_char(1, an);
    let vn = an - 1;
    let value: KeywordType;
    let tail: &str;
    if vn > 0 && vs.get_char(0) == '"' {
        let vr = vs.substring_char(1, vn);
        let vq = find_char(vr, '"');
        proof {
            lemma_find_props(vr@, '"');
        }
        if vq >= vn - 1 {
            return Err(SshdConfigError::ParseError);
        }
        value = parse_value_exec(vr.substring_char(0, vq));
        tail = vr.substring_char(vq + 1, vn - 1);
    } else if vn >= 4 && crate::strorder::str_eq(vs.substring_char(0, 4), "null") {
        proof {
            assert(vs@.subrange(0, 4) == "null"@);
        }
        value = KeywordType::Absent;
        tail = vs.substring_char(4, vn);
    } else {
        proof {
            if vn >= 4 && vs@.subrange(0, 4) == "null"@ {
                reveal_strlit("null");
                assert(vs@[0] == 'n');
                assert(vs@[0] != '"');
            }
        }
        return Err(SshdConfigError::ParseError);
    }
    let tn = tail.unicode_len();
    if tn == 0 {
        let mut out: Vec<(String, KeywordType)> = Vec::new();
        out.push((kw, value));
        proof {
            assert(crate::snapshot::pairs_view(out@) =~= seq![(out@[0].0@, out@[0].1@)]);
        }
        return Ok(out);
    }
    if tail.get_char(0) != ',' {
        return Err(SshdConfigError::ParseError);
    }
    let mut rest = match parse_members_exec(tail.substring_char(1, tn)) {
        Ok(t) => t,
        Err(e) => {
            return Err(e);
        },
    };
    let ghost restv = rest@;
    let ghost pairv = (kw@, value@);
    let mut out: Vec<(String, KeywordType)> = Vec::new();
    out.push((kw, value));
    out.append(&mut rest);
    proof {
        assert(out@ =~= seq![(out@[0].0, out@[0].1)].add(restv));
        assert(crate::snapshot::pairs_view(out@) =~= seq![pairv].add(
            crate::snapshot::pairs_view(restv),
        ));
    }
    Ok(out)
}

/// Decode a flat JSON object into (keyword, value) pairs, exactly as
/// `parse_json` describes.
pub fn decode_json_text(data: &String) -> (r: Result<Vec<(String, KeywordType)>, SshdConfigError>)
    ensures
        match r {
            Ok(ps) => parse_json(data@) == Some(crate::snapshot::pairs_view(ps@)),
            Err(e) => parse_json(data@) is None && e == SshdConfigError::ParseError,
        },
{
    let s = data.as_str();
    let n = s.unicode_len();
    if n < 2 {
        return Err(SshdConfigError::ParseError);
    }
    if s.get_char(0) != '{' {
        return Err(SshdConfigError::ParseError);
    }
    if s.get_char(n - 1) != '}' {
        return Err(SshdConfigError::ParseError);
    }
    let inner = s.substring_char(1, n - 1);
    if inner.unicode_len() == 0 {
        let out: Vec<(String, KeywordType)> = Vec::new();
        proof {
            assert(crate::snapshot::pairs_view(out@) =~= Seq::<(Seq<char>, KwVal)>::empty());
        }
        return Ok(out);
    }
    parse_members_exec(inner)
}

} // verus!

verus! {

/// Every entry of the snapshot can stand as a JSON member.
pub open spec fn snapshot_json_encodable(s: crate::snapshot::ConfigData) -> bool {
    forall|i: int|
        0 <= i < s.entries().len() ==> keyword_json_encodable((#[trigger] s.entries()[i]).0)
            && crate::codec::keyword_encodable(s.entries()[i].0) && value_json_encodable(
            s.entries()[i].1.value,
        )
}

/// Round trip of the structured codec over a whole snapshot: decoding the
/// encoded document yields exactly the snapshot's pairs, and importing them
/// into a fresh snapshot reproduces every keyword's value, explicit.
pub proof fn lemma_json_codec_round_trip(s: crate::snapshot::ConfigData)
    requires
        s.wf(),
        snapshot_json_encodable(s),
    ensures
        parse_json(render_json(crate::codec::entry_pairs(s.entries()))) == Some(
            crate::codec::entry_pairs(s.entries()),
        ),
        forall|k: Seq<char>|
            crate::snapshot::merge_val(None, crate::codec::entry_pairs(s.entries()), true, k) == (
            match s.spec_lookup(k) {
                Some(e) => Some(EntryVal { value: e.value, is_default: false }),
                None => None::<EntryVal>,
            }),
{
    let ps = crate::codec::entry_pairs(s.entries());
    assert forall|i: int|
        0 <= i < ps.len() implies keyword_json_encodable((#[trigger] ps[i]).0)
        && value_json_encodable(ps[i].1) by {
        assert(ps[i] == (s.entries()[i].0, s.entries()[i].1.value));
    }
    lemma_json_round_trip(ps);
    assert forall|k: Seq<char>|
        crate::snapshot::merge_val(None, ps, true, k) == (match s.spec_lookup(k) {
            Some(e) => Some(EntryVal { value: e.value, is_default: false }),
            None => None::<EntryVal>,
        }) by {
        crate::codec::lemma_rebuild(s.entries(), k);
    }
}

} // verus!
