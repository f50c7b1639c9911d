use vstd::prelude::*;

use crate::error::SshdConfigError;
use crate::keyword::{EntryVal, KeywordType, KwVal};
use crate::strorder::{seq_lt, str_eq};

verus! {

/// Whether `c` occurs in `s`.
pub open spec fn contains_char(s: Seq<char>, c: char) -> bool {
    exists|i: int| 0 <= i < s.len() && s[i] == c
}

/// Index of the first occurrence of `c` in `s`, or `s.len()` if none.
pub open spec fn find_char_spec(s: Seq<char>, c: char) -> int
    decreases s.len(),
{
    if s.len() == 0 {
        0
    } else if s[0] == c {
        0
    } else {
        1 + find_char_spec(s.drop_first(), c)
    }
}

/// `find_char_spec` is the first occurrence: in range, hits `c` when it is
/// inside, and nothing before it is `c`.
pub proof fn lemma_find_props(s: Seq<char>, c: char)
    ensures
        0 <= find_char_spec(s, c) <= s.len(),
        find_char_spec(s, c) < s.len() ==> s[find_char_spec(s, c)] == c,
        forall|j: int| 0 <= j < find_char_spec(s, c) ==> s[j] != c,
        find_char_spec(s, c) == s.len() ==> !contains_char(s, c),
    decreases s.len(),
{
    if s.len() > 0 && s[0] != c {
        lemma_find_props(s.drop_first(), c);
        let f = find_char_spec(s, c);
        assert forall|j: int| 0 <= j < f implies s[j] != c by {
            if j > 0 {
                assert(s.drop_first()[j - 1] == s[j]);
            }
        }
        if f < s.len() {
            assert(s.drop_first()[f - 1] == s[f]);
        }
        if f == s.len() {
            if contains_char(s, c) {
                let i = choose|i: int| 0 <= i < s.len() && s[i] == c;
                assert(s.drop_first()[i - 1] == c);
                assert(contains_char(s.drop_first(), c));
            }
        }
    }
}

/// If everything before `i` differs from `c` and position `i` holds `c`,
/// then `i` is the first occurrence.
pub proof fn lemma_find_is(s: Seq<char>, c: char, i: int)
    requires
        0 <= i < s.len(),
        s[i] == c,
        forall|j: int| 0 <= j < i ==> s[j] != c,
    ensures
        find_char_spec(s, c) == i,
{
    lemma_find_props(s, c);
    let f = find_char_spec(s, c);
    if f < i {
        assert(s[f] == c);
        assert(false);
    }
    if f > i {
        assert(s[i] != c);
        assert(false);
    }
}

/// Executable first-occurrence search, proved against `find_char_spec`.
pub fn find_char(s: &str, c: char) -> (r: usize)
    ensures
        r as int == find_char_spec(s@, c),
{
    let n = s.unicode_len();
    let mut i: usize = 0;
    while i < n
        invariant
            i <= n,
            n == s@.len(),
            forall|j: int| 0 <= j < i ==> s@[j] != c,
        decreases n - i,
    {
        if s.get_char(i) == c {
            proof {
                lemma_find_is(s@, c, i as int);
            }
            return i;
        }
        i += 1;
    }
    proof {
        lemma_find_props(s@, c);
        let f = find_char_spec(s@, c);
        if f < s@.len() {
            assert(s@[f] != c);
            assert(false);
        }
    }
    n
}

/// Comma-joined list: `a,b,c`.
pub open spec fn join_commas(vs: Seq<Seq<char>>) -> Seq<char>
    decreases vs.len(),
{
    if vs.len() == 0 {
        Seq::empty()
    } else if vs.len() == 1 {
        vs[0]
    } else {
        vs[0] + seq![','] + join_commas(vs.drop_first())
    }
}

/// Split at every comma; without one the whole string is the one element.
pub open spec fn split_commas(s: Seq<char>) -> Seq<Seq<char>>
    decreases s.len(),
{
    let i = find_char_spec(s, ',');
    if 0 <= i && i < s.len() {
        seq![s.subrange(0, i)] + split_commas(s.subrange(i + 1, s.len() as int))
    } else {
        seq![s]
    }
}

/// Joining comma-free pieces and splitting again returns the pieces.
pub proof fn lemma_split_join(vs: Seq<Seq<char>>)
    requires
        vs.len() >= 1,
        forall|i: int| 0 <= i < vs.len() ==> !contains_char(#[trigger] vs[i], ','),
    ensures
        split_commas(join_commas(vs)) == vs,
    decreases vs.len(),
{
    let s = join_commas(vs);
    if vs.len() == 1 {
        lemma_find_props(s, ',');
        if find_char_spec(s, ',') < s.len() {
            assert(contains_char(vs[0], ','));
        }
        assert(split_commas(s) =~= vs);
    } else {
        let head = vs[0];
        let rest = join_commas(vs.drop_first());
        assert(s == head + seq![','] + rest);
        assert forall|j: int| 0 <= j < head.len() implies s[j] != ',' by {
            assert(s[j] == head[j]);
            if s[j] == ',' {
                assert(contains_char(head, ','));
            }
        }
        assert(s[head.len() as int] == ',');
        lemma_find_is(s, ',', head.len() as int);
        assert(s.subrange(0, head.len() as int) =~= head);
        assert(s.subrange(head.len() as int + 1, s.len() as int) =~= rest);
        assert forall|i: int| 0 <= i < vs.drop_first().len() implies !contains_char(
            #[trigger] vs.drop_first()[i],
            ',',
        ) by {
            assert(vs.drop_first()[i] == vs[i + 1]);
        }
        lemma_split_join(vs.drop_first());
        assert(split_commas(s) =~= seq![head] + vs.drop_first());
        assert(seq![head] + vs.drop_first() =~= vs);
    }
}

/// Pieces free of some other character `c` join to a string free of `c`.
pub proof fn lemma_join_free(vs: Seq<Seq<char>>, c: char)
    requires
        c != ',',
        forall|i: int| 0 <= i < vs.len() ==> !contains_char(#[trigger] vs[i], c),
    ensures
        !contains_char(join_commas(vs), c),
    decreases vs.len(),
{
    let s = join_commas(vs);
    if vs.len() == 0 {
        if contains_char(s, c) {
            let i = choose|i: int| 0 <= i < s.len() && s[i] == c;
        }
    } else if vs.len() == 1 {
        assert(s == vs[0]);
    } else {
        assert forall|i: int| 0 <= i < vs.drop_first().len() implies !contains_char(
            #[trigger] vs.drop_first()[i],
            c,
        ) by {
            assert(vs.drop_first()[i] == vs[i + 1]);
        }
        lemma_join_free(vs.drop_first(), c);
        let head = vs[0];
        let rest = join_commas(vs.drop_first());
        if contains_char(s, c) {
            let i = choose|i: int| 0 <= i < s.len() && s[i] == c;
            if i < head.len() {
                assert(head[i] == c);
                assert(contains_char(head, c));
            } else if i == head.len() {
                assert(s[i] == ',');
            } else {
                assert(rest[i - head.len() - 1] == c);
                assert(contains_char(rest, c));
            }
        }
    }
}

/// Rendered value text of one keyword value.
pub open spec fn render_value(v: KwVal) -> Seq<char> {
    match v {
        KwVal::Flag(b) => if b {
            "yes"@
        } else {
            "no"@
        },
        KwVal::Single(s) => s,
        KwVal::Multi(vs) => join_commas(vs),
        KwVal::Absent => Seq::empty(),
    }
}

/// The value a piece of directive argument text denotes: the flag words map
/// to flags, a comma anywhere makes an ordered list, anything else is one
/// scalar.
pub open spec fn parse_value(s: Seq<char>) -> KwVal {
    if s == "yes"@ {
        KwVal::Flag(true)
    } else if s == "no"@ {
        KwVal::Flag(false)
    } else if contains_char(s, ',') {
        KwVal::Multi(split_commas(s))
    } else {
        KwVal::Single(s)
    }
}

/// Values whose rendering the parser maps back to themselves: scalars must
/// not read as flag words or lists, and list elements must be comma-free;
/// nothing may span lines.
pub open spec fn value_encodable(v: KwVal) -> bool {
    match v {
        KwVal::Flag(_) => true,
        KwVal::Single(s) => s != "yes"@ && s != "no"@ && !contains_char(s, ',')
            && !contains_char(s, '\n'),
        KwVal::Multi(vs) => vs.len() >= 2 && forall|i: int|
            0 <= i < vs.len() ==> !contains_char(#[trigger] vs[i], ',') && !contains_char(
                vs[i],
                '\n',
            ),
        KwVal::Absent => true,
    }
}

/// Keywords that can stand at the head of a directive line.
pub open spec fn keyword_encodable(k: Seq<char>) -> bool {
    k.len() > 0 && !contains_char(k, ' ') && !contains_char(k, '\n') && k[0] != '#'
}

/// One directive line: the keyword, then one space and the value text,
/// or the bare keyword for a valueless entry.
pub open spec fn render_line(k: Seq<char>, v: KwVal) -> Seq<char> {
    match v {
        KwVal::Absent => k,
        _ => k + seq![' '] + render_value(v),
    }
}

/// Split one line at its first space into keyword and value text.
pub open spec fn parse_line(l: Seq<char>) -> (Seq<char>, KwVal) {
    let i = find_char_spec(l, ' ');
    if 0 <= i && i < l.len() {
        (l.subrange(0, i), parse_value(l.subrange(i + 1, l.len() as int)))
    } else {
        (l, KwVal::Absent)
    }
}

/// The flag words hold no comma, no space and no newline.
proof fn lemma_flag_words()
    ensures
        !contains_char("yes"@, ','),
        !contains_char("no"@, ','),
        !contains_char("yes"@, '\n'),
        !contains_char("no"@, '\n'),
        !contains_char("yes"@, ' '),
        !contains_char("no"@, ' '),
        "yes"@.len() == 3,
        "no"@.len() == 2,
{
    reveal_strlit("yes");
    reveal_strlit("no");
    assert forall|c: char| c == ',' || c == '\n' || c == ' ' implies !contains_char("yes"@, c)
        && !contains_char("no"@, c) by {
        if contains_char("yes"@, c) {
            let i = choose|i: int| 0 <= i < "yes"@.len() && "yes"@[i] == c;
            assert(i == 0 || i == 1 || i == 2);
            assert(false);
        }
        if contains_char("no"@, c) {
            let i = choose|i: int| 0 <= i < "no"@.len() && "no"@[i] == c;
            assert(i == 0 || i == 1);
            assert(false);
        }
    }
}

/// A rendered value never holds a newline, for encodable values.
proof fn lemma_render_value_no_newline(v: KwVal)
    requires
        value_encodable(v),
    ensures
        !contains_char(render_value(v), '\n'),
{
    lemma_flag_words();
    match v {
        KwVal::Flag(_) => {},
        KwVal::Single(_) => {},
        KwVal::Multi(vs) => {
            lemma_join_free(vs, '\n');
        },
        KwVal::Absent => {
            if contains_char(render_value(v), '\n') {
                let i = choose|i: int|
                    0 <= i < render_value(v).len() && render_value(v)[i] == '\n';
            }
        },
    }
}

/// Parsing the rendering of one well-formed line returns the keyword and the
/// value unchanged.
pub proof fn lemma_line_round_trip(k: Seq<char>, v: KwVal)
    requires
        keyword_encodable(k),
        value_encodable(v),
    ensures
        parse_line(render_line(k, v)) == (k, v),
{
    lemma_flag_words();
    let l = render_line(k, v);
    match v {
        KwVal::Absent => {
            lemma_find_props(l, ' ');
            if find_char_spec(l, ' ') < l.len() {
                assert(contains_char(k, ' '));
            }
        },
        _ => {
            let rv = render_value(v);
            assert(l == k + seq![' '] + rv);
            assert forall|j: int| 0 <= j < k.len() implies l[j] != ' ' by {
                assert(l[j] == k[j]);
                if l[j] == ' ' {
                    assert(contains_char(k, ' '));
                }
            }
            assert(l[k.len() as int] == ' ');
            lemma_find_is(l, ' ', k.len() as int);
            assert(l.subrange(0, k.len() as int) =~= k);
            assert(l.subrange(k.len() as int + 1, l.len() as int) =~= rv);
            match v {
                KwVal::Flag(b) => {
                    if b {
                        assert(parse_value(rv) == KwVal::Flag(true));
                    } else {
                        assert("no"@ != "yes"@) by {
                            assert("no"@.len() != "yes"@.len());
                        }
                        assert(parse_value(rv) == KwVal::Flag(false));
                    }
                },
                KwVal::Single(s) => {
                    assert(parse_value(rv) == KwVal::Single(s));
                },
                KwVal::Multi(vs) => {
                    assert(rv == join_commas(vs));
                    assert(rv[vs[0].len() as int] == ',') by {
                        assert(rv == vs[0] + seq![','] + join_commas(vs.drop_first()));
                    }
                    assert(contains_char(rv, ','));
                    if rv == "yes"@ {
                        assert("yes"@[vs[0].len() as int] == ',');
                        assert(contains_char("yes"@, ','));
                    }
                    if rv == "no"@ {
                        assert("no"@[vs[0].len() as int] == ',');
                        assert(contains_char("no"@, ','));
                    }
                    lemma_split_join(vs);
                    assert(parse_value(rv) == KwVal::Multi(vs));
                },
                KwVal::Absent => {},
            }
        },
    }
}

} // verus!

verus! {

/// Full directive text: one rendered line per pair, each ended by a newline.
pub open spec fn render_text(ps: Seq<(Seq<char>, KwVal)>) -> Seq<char>
    decreases ps.len(),
{
    if ps.len() == 0 {
        Seq::empty()
    } else {
        render_line(ps[0].0, ps[0].1) + seq!['\n'] + render_text(ps.drop_first())
    }
}

/// Rendering one more pair appends one more line.
pub proof fn lemma_render_text_push(ps: Seq<(Seq<char>, KwVal)>, p: (Seq<char>, KwVal))
    ensures
        render_text(ps.push(p)) == render_text(ps) + render_line(p.0, p.1) + seq!['\n'],
    decreases ps.len(),
{
    let s = ps.push(p);
    if ps.len() == 0 {
        assert(s[0] == p);
        assert(s.drop_first() =~= Seq::<(Seq<char>, KwVal)>::empty());
        assert(render_text(s.drop_first()) =~= Seq::<char>::empty());
        assert(render_text(s) == render_line(s[0].0, s[0].1) + seq!['\n'] + render_text(
            s.drop_first(),
        ));
        assert(s[0].0 == p.0 && s[0].1 == p.1);
        assert(render_text(s) =~= render_text(ps) + render_line(p.0, p.1) + seq!['\n']);
    } else {
        assert(s[0] == ps[0]);
        assert(s.drop_first() =~= ps.drop_first().push(p));
        lemma_render_text_push(ps.drop_first(), p);
        assert(render_text(s) =~= render_text(ps) + render_line(p.0, p.1) + seq!['\n']);
    }
}

/// Decode directive text into pairs: lines split at the first newline,
/// blank lines and comment lines skipped, each other line parsed as a
/// directive. A line whose keyword is empty is malformed.
pub open spec fn parse_text(s: Seq<char>) -> Option<Seq<(Seq<char>, KwVal)>>
    decreases s.len(),
{
    if s.len() == 0 {
        Some(Seq::empty())
    } else {
        let i = find_char_spec(s, '\n');
        let line = if 0 <= i && i < s.len() {
            s.subrange(0, i)
        } else {
            s
        };
        let rest = if 0 <= i && i < s.len() {
            s.subrange(i + 1, s.len() as int)
        } else {
            Seq::<char>::empty()
        };
        if line.len() == 0 || line[0] == '#' {
            parse_text(rest)
        } else {
            let kv = parse_line(line);
            if kv.0.len() == 0 {
                None
            } else {
                match parse_text(rest) {
                    None => None,
                    Some(t) => Some(seq![kv] + t),
                }
            }
        }
    }
}

/// Every pair can be written as a directive line and read back.
pub open spec fn pairs_encodable(ps: Seq<(Seq<char>, KwVal)>) -> bool {
    forall|i: int|
        0 <= i < ps.len() ==> keyword_encodable((#[trigger] ps[i]).0) && value_encodable(ps[i].1)
}

/// A rendered directive line holds no newline.
proof fn lemma_render_line_no_newline(k: Seq<char>, v: KwVal)
    requires
        keyword_encodable(k),
        value_encodable(v),
    ensures
        !contains_char(render_line(k, v), '\n'),
{
    let l = render_line(k, v);
    lemma_render_value_no_newline(v);
    match v {
        KwVal::Absent => {},
        _ => {
            let rv = render_value(v);
            if contains_char(l, '\n') {
                let i = choose|i: int| 0 <= i < l.len() && l[i] == '\n';
                if i < k.len() {
                    assert(k[i] == '\n');
                    assert(contains_char(k, '\n'));
                } else if i == k.len() {
                    assert(l[i] == ' ');
                } else {
                    assert(rv[i - k.len() - 1] == '\n');
                    assert(contains_char(rv, '\n'));
                }
            }
        },
    }
}

/// Round trip of the directive-text codec: decoding the encoding of
/// well-formed pairs returns exactly those pairs.
pub proof fn lemma_text_round_trip(ps: Seq<(Seq<char>, KwVal)>)
    requires
        pairs_encodable(ps),
    ensures
        parse_text(render_text(ps)) == Some(ps),
    decreases ps.len(),
{
    if ps.len() == 0 {
    } else {
        let k = ps[0].0;
        let v = ps[0].1;
        let line = render_line(k, v);
        let tail = render_text(ps.drop_first());
        let s = render_text(ps);
        assert(s == line + seq!['\n'] + tail);
        lemma_render_line_no_newline(k, v);
        assert forall|j: int| 0 <= j < line.len() implies s[j] != '\n' by {
            assert(s[j] == line[j]);
            if s[j] == '\n' {
                assert(contains_char(line, '\n'));
            }
        }
        assert(s[line.len() as int] == '\n');
        lemma_find_is(s, '\n', line.len() as int);
        assert(s.subrange(0, line.len() as int) =~= line);
        assert(s.subrange(line.len() as int + 1, s.len() as int) =~= tail);
        assert(line.len() > 0);
        assert(line[0] == k[0]);
        lemma_line_round_trip(k, v);
        assert forall|i: int|
            0 <= i < ps.drop_first().len() implies keyword_encodable(
            (#[trigger] ps.drop_first()[i]).0,
        ) && value_encodable(ps.drop_first()[i].1) by {
            assert(ps.drop_first()[i] == ps[i + 1]);
        }
        lemma_text_round_trip(ps.drop_first());
        assert(seq![(k, v)] + ps.drop_first() =~= ps);
    }
}

} // verus!

verus! {

/// One more element joined at the end adds one comma and the element.
proof fn lemma_join_push(vs: Seq<Seq<char>>, x: Seq<char>)
    ensures
        vs.len() == 0 ==> join_commas(vs.push(x)) == x,
        vs.len() >= 1 ==> join_commas(vs.push(x)) == join_commas(vs) + seq![','] + x,
    decreases vs.len(),
{
    let s = vs.push(x);
    if vs.len() == 0 {
        assert(s.len() == 1);
        assert(s[0] == x);
    } else if vs.len() == 1 {
        assert(s[0] == vs[0]);
        assert(s.drop_first() =~= seq![x]);
        assert(join_commas(s.drop_first()) == x);
        assert(join_commas(s) =~= join_commas(vs) + seq![','] + x);
    } else {
        assert(s[0] == vs[0]);
        assert(s.drop_first() =~= vs.drop_first().push(x));
        lemma_join_push(vs.drop_first(), x);
        assert(join_commas(s) =~= join_commas(vs) + seq![','] + x);
    }
}

/// Append the rendering of one keyword value to `out`.
pub(crate) fn encode_value(v: &KeywordType, out: &mut String)
    ensures
        final(out)@ == old(out)@ + render_value(v@),
{
    match v {
        KeywordType::Flag(b) => {
            if *b {
                out.append("yes");
            } else {
                out.append("no");
            }
        },
        KeywordType::SingleValue(s) => {
            out.append(s.as_str());
        },
        KeywordType::MultiValue(vs) => {
            let ghost base = out@;
            let n = vs.len();
            let mut i: usize = 0;
            while i < n
                invariant
                    i <= n,
                    n == vs.len(),
                    out@ == base + join_commas(vs.deep_view().take(i as int)),
                decreases n - i,
            {
                if i > 0 {
                    out.append(",");
                    proof {
                        reveal_strlit(",");
                        assert(","@ =~= seq![',']);
                    }
                }
                out.append(vs[i].as_str());
                proof {
                    assert(vs.deep_view().take(i + 1) =~= vs.deep_view().take(i as int).push(
                        vs.deep_view()[i as int],
                    ));
                    lemma_join_push(vs.deep_view().take(i as int), vs.deep_view()[i as int]);
                    assert(vs.deep_view()[i as int] == vs[i as int]@);
                }
                i += 1;
            }
            proof {
                assert(vs.deep_view().take(n as int) =~= vs.deep_view());
                if n == 0 {
                    assert(join_commas(vs.deep_view()) =~= Seq::<char>::empty());
                    assert(out@ =~= base);
                }
            }
        },
        KeywordType::Absent => {
            proof {
                assert(old(out)@ + render_value(v@) =~= old(out)@);
            }
        },
    }
}

/// Append one rendered directive line, newline included, to `out`.
fn encode_line(k: &String, v: &KeywordType, out: &mut String)
    ensures
        final(out)@ == old(out)@ + render_line(k@, v@) + seq!['\n'],
{
    out.append(k.as_str());
    let absent = match v {
        KeywordType::Absent => true,
        _ => false,
    };
    if !absent {
        out.append(" ");
        proof {
            reveal_strlit(" ");
            assert(" "@ =~= seq![' ']);
        }
        encode_value(v, out);
    }
    out.append("\n");
    proof {
        reveal_strlit("\n");
        assert("\n"@ =~= seq!['\n']);
        if absent {
            assert(out@ =~= old(out)@ + render_line(k@, v@) + seq!['\n']);
        } else {
            assert(out@ =~= old(out)@ + render_line(k@, v@) + seq!['\n']);
        }
    }
}

/// The (keyword, value) pairs of all entries, in order.
pub open spec fn entry_pairs(s: Seq<(Seq<char>, EntryVal)>) -> Seq<(Seq<char>, KwVal)> {
    Seq::new(s.len(), |i: int| (s[i].0, s[i].1.value))
}

/// The (keyword, value) pairs of the explicitly declared entries alone, in
/// order: what the managed file carries as directive lines.
pub open spec fn explicit_pairs(s: Seq<(Seq<char>, EntryVal)>) -> Seq<(Seq<char>, KwVal)>
    decreases s.len(),
{
    if s.len() == 0 {
        Seq::empty()
    } else if !s[0].1.is_default {
        seq![(s[0].0, s[0].1.value)] + explicit_pairs(s.drop_first())
    } else {
        explicit_pairs(s.drop_first())
    }
}

/// One more entry at the end contributes its pair exactly when explicit.
pub proof fn lemma_explicit_pairs_push(s: Seq<(Seq<char>, EntryVal)>, e: (Seq<char>, EntryVal))
    ensures
        explicit_pairs(s.push(e)) == explicit_pairs(s) + (if !e.1.is_default {
            seq![(e.0, e.1.value)]
        } else {
            Seq::<(Seq<char>, KwVal)>::empty()
        }),
    decreases s.len(),
{
    let t = s.push(e);
    if s.len() == 0 {
        assert(t[0] == e);
        assert(t.drop_first() =~= Seq::<(Seq<char>, EntryVal)>::empty());
        assert(explicit_pairs(t.drop_first()) =~= Seq::<(Seq<char>, KwVal)>::empty());
        if !e.1.is_default {
            assert(explicit_pairs(t) =~= explicit_pairs(s) + seq![(e.0, e.1.value)]);
        } else {
            assert(explicit_pairs(t) =~= explicit_pairs(s));
        }
    } else {
        assert(t[0] == s[0]);
        assert(t.drop_first() =~= s.drop_first().push(e));
        lemma_explicit_pairs_push(s.drop_first(), e);
        if !e.1.is_default {
            assert(explicit_pairs(t) =~= explicit_pairs(s) + seq![(e.0, e.1.value)]);
        } else {
            assert(explicit_pairs(t) =~= explicit_pairs(s));
        }
    }
}

/// Render every entry of a snapshot, defaults included, as directive text.
pub fn encode_directive_text(snap: &crate::snapshot::ConfigData) -> (r: String)
    ensures
        r@ == render_text(entry_pairs(snap.entries())),
{
    let mut out = String::new();
    let n = snap.config_lookup.len();
    let mut i: usize = 0;
    while i < n
        invariant
            i <= n,
            n == snap.config_lookup.len(),
            out@ == render_text(entry_pairs(snap.entries()).take(i as int)),
        decreases n - i,
    {
        let kw = &snap.config_lookup[i].0;
        let e = &snap.config_lookup[i].1;
        encode_line(kw, &e.value, &mut out);
        proof {
            let ep = entry_pairs(snap.entries());
            assert(ep.take(i + 1) =~= ep.take(i as int).push(ep[i as int]));
            lemma_render_text_push(ep.take(i as int), ep[i as int]);
            assert(ep[i as int] == (kw@, e@.value));
        }
        i += 1;
    }
    proof {
        assert(entry_pairs(snap.entries()).take(n as int) =~= entry_pairs(snap.entries()));
    }
    out
}

/// Render only the explicit entries of a snapshot as directive text: the
/// exact bytes the managed file is given. Daemon defaults write no line.
pub fn encode_explicit_directive_text(snap: &crate::snapshot::ConfigData) -> (r: String)
    ensures
        r@ == render_text(explicit_pairs(snap.entries())),
{
    let mut out = String::new();
    let n = snap.config_lookup.len();
    let mut i: usize = 0;
    while i < n
        invariant
            i <= n,
            n == snap.config_lookup.len(),
            out@ == render_text(explicit_pairs(snap.entries().take(i as int))),
        decreases n - i,
    {
        let kw = &snap.config_lookup[i].0;
        let e = &snap.config_lookup[i].1;
        proof {
            assert(snap.entries().take(i + 1) =~= snap.entries().take(i as int).push(
                snap.entries()[i as int],
            ));
            lemma_explicit_pairs_push(snap.entries().take(i as int), snap.entries()[i as int]);
        }
        if !e.is_default {
            encode_line(kw, &e.value, &mut out);
            proof {
                let prev = explicit_pairs(snap.entries().take(i as int));
                assert(explicit_pairs(snap.entries().take(i + 1)) =~= prev.push(
                    (kw@, e@.value),
                ));
                lemma_render_text_push(prev, (kw@, e@.value));
            }
        } else {
            proof {
                assert(explicit_pairs(snap.entries().take(i + 1)) =~= explicit_pairs(
                    snap.entries().take(i as int),
                ));
            }
        }
        i += 1;
    }
    proof {
        assert(snap.entries().take(n as int) =~= snap.entries());
    }
    out
}

/// Executable comma split, proved against `split_commas`.
fn split_commas_exec(s: &str) -> (r: Vec<String>)
    ensures
        r.deep_view() == split_commas(s@),
    decreases s@.len(),
{
    let n = s.unicode_len();
    let i = find_char(s, ',');
    proof {
        lemma_find_props(s@, ',');
    }
    if i < n {
        let head = s.substring_char(0, i).to_owned();
        let rest = s.substring_char(i + 1, n);
        let mut tail = split_commas_exec(rest);
        let mut out: Vec<String> = Vec::new();
        out.push(head);
        out.append(&mut tail);
        proof {
            assert(out.deep_view() =~= split_commas(s@));
        }
        out
    } else {
        let out = vec![s.to_owned()];
        proof {
            assert(out.deep_view() =~= split_commas(s@));
        }
        out
    }
}

/// Executable value parser, proved against `parse_value`.
pub fn parse_value_exec(s: &str) -> (r: KeywordType)
    ensures
        r@ == parse_value(s@),
{
    if str_eq(s, "yes") {
        KeywordType::Flag(true)
    } else if str_eq(s, "no") {
        KeywordType::Flag(false)
    } else {
        let n = s.unicode_len();
        let i = find_char(s, ',');
        proof {
            lemma_find_props(s@, ',');
        }
        if i < n {
            proof {
                assert(contains_char(s@, ','));
            }
            KeywordType::MultiValue(split_commas_exec(s))
        } else {
            KeywordType::SingleValue(s.to_owned())
        }
    }
}

/// Executable directive-text parser, proved against `parse_text`.
fn parse_text_exec(s: &str) -> (r: Result<Vec<(String, KeywordType)>, SshdConfigError>)
    ensures
        match r {
            Ok(ps) => parse_text(s@) == Some(crate::snapshot::pairs_view(ps@)),
            Err(e) => parse_text(s@) is None && e == SshdConfigError::ParseError,
        },
    decreases s@.len(),
{
    let n = s.unicode_len();
    if n == 0 {
        let out: Vec<(String, KeywordType)> = Vec::new();
        proof {
            assert(crate::snapshot::pairs_view(out@) =~= Seq::<(Seq<char>, KwVal)>::empty());
        }
        return Ok(out);
    }
    let i = find_char(s, '\n');
    proof {
        lemma_find_props(s@, '\n');
    }
    let line = if i < n {
        s.substring_char(0, i)
    } else {
        s
    };
    let rest = if i < n {
        s.substring_char(i + 1, n)
    } else {
        s.substring_char(n, n)
    };
    proof {
        if i >= n {
            assert(rest@ =~= Seq::<char>::empty());
        }
    }
    let ln = line.unicode_len();
    if ln == 0 {
        return parse_text_exec(rest);
    }
    if line.get_char(0) == '#' {
        return parse_text_exec(rest);
    }
    let sp = find_char(line, ' ');
    proof {
        lemma_find_props(line@, ' ');
    }
    let pair: (String, KeywordType) = if sp < ln {
        let kw = s_substring_owned(line, 0, sp);
        let val = parse_value_exec(line.substring_char(sp + 1, ln));
        (kw, val)
    } else {
        (line.to_owned(), KeywordType::Absent)
    };
    if pair.0.as_str().unicode_len() == 0 {
        return Err(SshdConfigError::ParseError);
    }
    let mut tail = match parse_text_exec(rest) {
        Ok(t) => t,
        Err(e) => {
            return Err(e);
        },
    };
    let ghost tailv = tail@;
    let ghost pairv = (pair.0@, pair.1@);
    let mut out: Vec<(String, KeywordType)> = Vec::new();
    out.push(pair);
    out.append(&mut tail);
    proof {
        assert(out@ =~= seq![(out@[0].0, out@[0].1)].add(tailv));
        assert(crate::snapshot::pairs_view(out@) =~= seq![pairv].add(
            crate::snapshot::pairs_view(tailv),
        ));
        assert(parse_text(s@) == Some(crate::snapshot::pairs_view(out@)));
    }
    Ok(out)
}

/// Owned copy of a substring, by character positions.
fn s_substring_owned(s: &str, from: usize, to: usize) -> (r: String)
    requires
        from <= to <= s@.len(),
    ensures
        r@ == s@.subrange(from as int, to as int),
{
    s.substring_char(from, to).to_owned()
}

/// Decode full directive text into (keyword, value) pairs, exactly as
/// `parse_text` describes; malformed text is rejected as a parse error.
pub fn decode_directive_text(data: &String) -> (r: Result<
    Vec<(String, KeywordType)>,
    SshdConfigError,
>)
    ensures
        match r {
            Ok(ps) => parse_text(data@) == Some(crate::snapshot::pairs_view(ps@)),
            Err(e) => parse_text(data@) is None && e == SshdConfigError::ParseError,
        },
{
    parse_text_exec(data.as_str())
}

} // verus!

verus! {

/// A non-valueless encodable value reads back from its rendered text.
pub proof fn lemma_value_reparse(v: KwVal)
    requires
        value_encodable(v),
        !(v matches KwVal::Absent),
    ensures
        parse_value(render_value(v)) == v,
{
    lemma_flag_words();
    let rv = render_value(v);
    match v {
        KwVal::Flag(b) => {
            if !b {
                assert("no"@ != "yes"@) by {
                    assert("no"@.len() != "yes"@.len());
                }
            }
        },
        KwVal::Single(_) => {},
        KwVal::Multi(vs) => {
            assert(rv == vs[0] + seq![','] + join_commas(vs.drop_first()));
            assert(rv[vs[0].len() as int] == ',');
            assert(contains_char(rv, ','));
            if rv == "yes"@ {
                assert(contains_char("yes"@, ','));
            }
            if rv == "no"@ {
                assert(contains_char("no"@, ','));
            }
            lemma_split_join(vs);
        },
        KwVal::Absent => {},
    }
}

} // verus!

verus! {

/// Pairs that name no keyword `k` leave `k`'s entry alone.
pub proof fn lemma_merge_no_key(
    cur: Option<EntryVal>,
    ps: Seq<(Seq<char>, KwVal)>,
    explicit: bool,
    k: Seq<char>,
)
    requires
        forall|i: int| 0 <= i < ps.len() ==> (#[trigger] ps[i]).0 != k,
    ensures
        crate::snapshot::merge_key(cur, ps, explicit, k) == Some(cur),
    decreases ps.len(),
{
    if ps.len() > 0 {
        assert forall|i: int| 0 <= i < ps.drop_first().len() implies (#[trigger] ps.drop_first()[i]).0
            != k by {
            assert(ps.drop_first()[i] == ps[i + 1]);
        }
        lemma_merge_no_key(cur, ps.drop_first(), explicit, k);
    }
}

/// Importing the pairs of a sorted snapshot into an empty snapshot gives
/// back every keyword's value, now explicitly declared.
pub proof fn lemma_rebuild(e: Seq<(Seq<char>, EntryVal)>, k: Seq<char>)
    requires
        crate::snapshot::sorted_keys(e),
    ensures
        crate::snapshot::merge_key(None, entry_pairs(e), true, k) is Some,
        crate::snapshot::merge_val(None, entry_pairs(e), true, k) == (match crate::snapshot::lookup_seq(e, k) {
            Some(en) => Some(EntryVal { value: en.value, is_default: false }),
            None => None::<EntryVal>,
        }),
    decreases e.len(),
{
    let ps = entry_pairs(e);
    if e.len() == 0 {
    } else {
        assert(ps[0] == (e[0].0, e[0].1.value));
        assert(ps.drop_first() =~= entry_pairs(e.drop_first()));
        if e[0].0 == k {
            let v = e[0].1.value;
            assert(crate::snapshot::shape_coerce(None, v) == Some(v));
            let en = EntryVal { value: v, is_default: false };
            assert(crate::snapshot::merge_step(None, v, true) == Some(en));
            assert forall|i: int|
                0 <= i < ps.drop_first().len() implies (#[trigger] ps.drop_first()[i]).0 != k by {
                assert(ps.drop_first()[i] == ps[i + 1]);
                assert(ps[i + 1].0 == e[i + 1].0);
                assert(seq_lt(e[0].0, e[i + 1].0));
                crate::strorder::lemma_seq_lt_trichotomy(e[0].0, e[i + 1].0);
            }
            lemma_merge_no_key(Some(en), ps.drop_first(), true, k);
        } else {
            assert(crate::snapshot::sorted_keys(e.drop_first())) by {
                assert forall|p: int, q: int|
                    0 <= p < q < e.drop_first().len() implies seq_lt(
                    e.drop_first()[p].0,
                    e.drop_first()[q].0,
                ) by {
                    assert(e.drop_first()[p] == e[p + 1]);
                    assert(e.drop_first()[q] == e[q + 1]);
                }
            }
            lemma_rebuild(e.drop_first(), k);
        }
    }
}

/// Every entry of the snapshot can stand as a directive line.
pub open spec fn snapshot_text_encodable(s: crate::snapshot::ConfigData) -> bool {
    forall|i: int|
        0 <= i < s.entries().len() ==> keyword_encodable((#[trigger] s.entries()[i]).0)
            && value_encodable(s.entries()[i].1.value)
}

/// Round trip of the directive-text codec over a whole snapshot: decoding
/// the encoded text yields exactly the snapshot's pairs, and importing them
/// into a fresh snapshot reproduces every keyword's value, explicit.
pub proof fn lemma_directive_codec_round_trip(s: crate::snapshot::ConfigData)
    requires
        s.wf(),
        snapshot_text_encodable(s),
    ensures
        parse_text(render_text(entry_pairs(s.entries()))) == Some(entry_pairs(s.entries())),
        forall|k: Seq<char>|
            crate::snapshot::merge_val(None, entry_pairs(s.entries()), true, k) == (
            match s.spec_lookup(k) {
                Some(e) => Some(EntryVal { value: e.value, is_default: false }),
                None => None::<EntryVal>,
            }),
{
    let ps = entry_pairs(s.entries());
    assert forall|i: int|
        0 <= i < ps.len() implies keyword_encodable((#[trigger] ps[i]).0) && value_encodable(
        ps[i].1,
    ) by {
        assert(ps[i] == (s.entries()[i].0, s.entries()[i].1.value));
    }
    lemma_text_round_trip(ps);
    assert forall|k: Seq<char>|
        crate::snapshot::merge_val(None, ps, true, k) == (match s.spec_lookup(k) {
            Some(e) => Some(EntryVal { value: e.value, is_default: false }),
            None => None::<EntryVal>,
        }) by {
        lemma_rebuild(s.entries(), k);
    }
}

} // verus!
