use vstd::prelude::*;

use crate::messages::DecodeError;
use crate::messages::MsgModel;
use crate::messages::WireMsg;

verus! {

/// How one character appears inside a quoted string: quote and backslash
/// get a backslash escape, everything else stands for itself.
pub open spec fn esc_char(c: char) -> Seq<char> {
    if c == '"' || c == '\\' {
        seq!['\\', c]
    } else {
        seq![c]
    }
}

/// A string's characters in escaped form.
pub open spec fn esc_string(s: Seq<char>) -> Seq<char>
    decreases s.len(),
{
    if s.len() == 0 {
        Seq::empty()
    } else {
        esc_char(s[0]) + esc_string(s.skip(1))
    }
}

/// The items of a permission list: quoted strings joined by commas.
pub open spec fn perm_items(ps: Seq<Seq<char>>) -> Seq<char>
    decreases ps.len(),
{
    if ps.len() == 0 {
        Seq::empty()
    } else if ps.len() == 1 {
        quoted(ps[0])
    } else {
        quoted(ps[0]) + seq![','] + perm_items(ps.skip(1))
    }
}

/// A string value in its wire form: escaped and wrapped in quotes.
pub open spec fn quoted(s: Seq<char>) -> Seq<char> {
    seq!['"'] + esc_string(s) + seq!['"']
}

/// The canonical wire text of a message: a self-describing record whose
/// `type` field names the variant, followed by the variant's fields.
pub open spec fn spec_encode(m: MsgModel) -> Seq<char> {
    match m {
        MsgModel::Permission { uid, permissions } => "{\"type\":\"permission\",\"uid\":\""@
            + esc_string(uid) + "\",\"permissions\":["@ + perm_items(permissions) + "]}"@,
        MsgModel::Message { channel, message } => "{\"type\":\"message\",\"channel\":\""@
            + esc_string(channel) + "\",\"message\":\""@ + esc_string(message) + "\"}"@,
        MsgModel::Broadcast { channel, message } => "{\"type\":\"broadcast\",\"channel\":\""@
            + esc_string(channel) + "\",\"message\":\""@ + esc_string(message) + "\"}"@,
        MsgModel::Uid { uid } => "{\"type\":\"uid\",\"uid\":\""@ + esc_string(uid) + "\"}"@,
        MsgModel::Subscribe { channel } => "{\"type\":\"subscribe\",\"channel\":\""@ + esc_string(
            channel,
        ) + "\"}"@,
        MsgModel::Ready => "{\"type\":\"ready\"}"@,
    }
}

/// Escaping one more character appends its escape.
proof fn lemma_esc_snoc(x: Seq<char>, c: char)
    ensures
        esc_string(x.push(c)) == esc_string(x) + esc_char(c),
    decreases x.len(),
{
    let y = x.push(c);
    assert(y.len() == x.len() + 1);
    if x.len() == 0 {
        assert(y[0] == c);
        assert(y.skip(1) =~= Seq::<char>::empty());
        assert(esc_string(y) == esc_char(c) + esc_string(y.skip(1)));
        assert(esc_string(y.skip(1)) == Seq::<char>::empty());
        assert(esc_string(x) == Seq::<char>::empty());
        assert(esc_char(c) + Seq::<char>::empty() =~= esc_char(c));
        assert(Seq::<char>::empty() + esc_char(c) =~= esc_char(c));
    } else {
        assert(y[0] == x[0]);
        assert(y.skip(1) =~= x.skip(1).push(c));
        lemma_esc_snoc(x.skip(1), c);
        assert(esc_string(y) == esc_char(x[0]) + (esc_string(x.skip(1)) + esc_char(c)));
        assert(esc_char(x[0]) + (esc_string(x.skip(1)) + esc_char(c)) =~= (esc_char(x[0])
            + esc_string(x.skip(1))) + esc_char(c));
    }
}

/// Appending one more permission item extends the joined list.
proof fn lemma_items_snoc(ps: Seq<Seq<char>>, x: Seq<char>)
    ensures
        perm_items(ps.push(x)) == (if ps.len() == 0 {
            quoted(x)
        } else {
            perm_items(ps) + seq![','] + perm_items(seq![x])
        }),
    decreases ps.len(),
{
    let ps2 = ps.push(x);
    if ps.len() == 0 {
        assert(ps2.len() == 1);
        assert(ps2[0] == x);
    } else {
        assert(ps2.skip(1) =~= ps.skip(1).push(x));
        lemma_items_snoc(ps.skip(1), x);
        if ps.len() == 1 {
            assert(perm_items(ps2) =~= perm_items(ps) + seq![','] + perm_items(seq![x]));
        } else {
            assert(perm_items(ps2) =~= perm_items(ps) + seq![','] + perm_items(seq![x]));
        }
    }
}

/// A string body in its wire form: escaped characters, the closing
/// quote, then whatever follows.
spec fn str_cat(x: Seq<char>, rest: Seq<char>) -> Seq<char> {
    esc_string(x) + seq!['"'] + rest
}

spec fn has_str_decomp(t: Seq<char>) -> bool {
    exists|x: Seq<char>, rest: Seq<char>| t == #[trigger] str_cat(x, rest)
}

/// A permission list in its wire form: the joined items, the closing
/// bracket, then whatever follows.
spec fn items_cat(ps: Seq<Seq<char>>, rest: Seq<char>) -> Seq<char> {
    perm_items(ps) + seq![']'] + rest
}

spec fn has_items_decomp(t: Seq<char>) -> bool {
    exists|ps: Seq<Seq<char>>, rest: Seq<char>| t == #[trigger] items_cat(ps, rest)
}

/// First-character analysis of an escaped string body.
proof fn lemma_esc_head(x: Seq<char>, rest: Seq<char>)
    ensures
        str_cat(x, rest).len() >= 1,
        str_cat(x, rest)[0] == '"' ==> x.len() == 0 && str_cat(x, rest).skip(1) == rest,
        str_cat(x, rest)[0] == '\\' ==> x.len() >= 1 && str_cat(x, rest).len() >= 3 && (x[0] == '"'
            || x[0] == '\\') && str_cat(x, rest)[1] == x[0] && str_cat(x, rest).skip(2) == str_cat(
            x.skip(1),
            rest,
        ),
        str_cat(x, rest)[0] != '"' && str_cat(x, rest)[0] != '\\' ==> x.len() >= 1 && x[0]
            == str_cat(x, rest)[0] && str_cat(x, rest).skip(1) == str_cat(x.skip(1), rest),
{
    let t = str_cat(x, rest);
    if x.len() == 0 {
        assert(esc_string(x) == Seq::<char>::empty());
        assert(t[0] == '"');
        assert(t.skip(1) =~= rest);
    } else {
        assert(esc_string(x) == esc_char(x[0]) + esc_string(x.skip(1)));
        if x[0] == '"' || x[0] == '\\' {
            assert(t[0] == '\\');
            assert(t[1] == x[0]);
            assert(t.len() >= 3);
            assert(t.skip(2) =~= str_cat(x.skip(1), rest));
        } else {
            assert(t[0] == x[0]);
            assert(t.skip(1) =~= str_cat(x.skip(1), rest));
        }
    }
}

/// An escaped string body has exactly one reading.
proof fn lemma_esc_unique(x: Seq<char>, y: Seq<char>, a: Seq<char>, b: Seq<char>)
    requires
        str_cat(x, a) == str_cat(y, b),
    ensures
        x == y,
        a == b,
    decreases x.len(),
{
    let t = str_cat(x, a);
    lemma_esc_head(x, a);
    lemma_esc_head(y, b);
    if t[0] == '"' {
        assert(x =~= y);
        assert(a =~= b);
    } else if t[0] == '\\' {
        lemma_esc_unique(x.skip(1), y.skip(1), a, b);
        assert(x[0] == t[1] && y[0] == t[1]);
        assert forall|i: int| 1 <= i < x.len() implies x[i] == y[i] by {
            assert(x[i] == x.skip(1)[i - 1]);
            assert(y[i] == y.skip(1)[i - 1]);
        }
        assert(x =~= y);
    } else {
        lemma_esc_unique(x.skip(1), y.skip(1), a, b);
        assert(x[0] == t[0] && y[0] == t[0]);
        assert forall|i: int| 1 <= i < x.len() implies x[i] == y[i] by {
            assert(x[i] == x.skip(1)[i - 1]);
            assert(y[i] == y.skip(1)[i - 1]);
        }
        assert(x =~= y);
    }
}

/// First-character analysis of a permission list body.
proof fn lemma_items_head(ps: Seq<Seq<char>>, rest: Seq<char>)
    ensures
        items_cat(ps, rest).len() >= 1,
        items_cat(ps, rest)[0] == ']' || items_cat(ps, rest)[0] == '"',
        items_cat(ps, rest)[0] == ']' ==> ps.len() == 0 && items_cat(ps, rest).skip(1) == rest,
        items_cat(ps, rest)[0] == '"' ==> ps.len() >= 1 && items_cat(ps, rest).skip(1) == str_cat(
            ps[0],
            (if ps.len() == 1 {
                seq![']'] + rest
            } else {
                seq![','] + items_cat(ps.skip(1), rest)
            }),
        ),
{
    let t = items_cat(ps, rest);
    if ps.len() == 0 {
        assert(perm_items(ps).len() == 0);
        assert(t[0] == ']');
        assert(t.skip(1) =~= rest);
    } else if ps.len() == 1 {
        assert(perm_items(ps) == quoted(ps[0]));
        assert(t[0] == '"');
        assert(t.skip(1) =~= str_cat(ps[0], seq![']'] + rest));
    } else {
        assert(perm_items(ps) == quoted(ps[0]) + seq![','] + perm_items(ps.skip(1)));
        assert(t[0] == '"');
        assert(t.skip(1) =~= str_cat(ps[0], seq![','] + items_cat(ps.skip(1), rest)));
    }
}

/// A permission list body has exactly one reading.
proof fn lemma_items_unique(ps: Seq<Seq<char>>, qs: Seq<Seq<char>>, a: Seq<char>, b: Seq<char>)
    requires
        items_cat(ps, a) == items_cat(qs, b),
    ensures
        ps == qs,
        a == b,
    decreases ps.len(),
{
    let t = items_cat(ps, a);
    lemma_items_head(ps, a);
    lemma_items_head(qs, b);
    if t[0] == ']' {
        assert(ps =~= qs);
        assert(a =~= b);
    } else {
        let mid_p = if ps.len() == 1 {
            seq![']'] + a
        } else {
            seq![','] + items_cat(ps.skip(1), a)
        };
        let mid_q = if qs.len() == 1 {
            seq![']'] + b
        } else {
            seq![','] + items_cat(qs.skip(1), b)
        };
        lemma_esc_unique(ps[0], qs[0], mid_p, mid_q);
        if ps.len() == 1 {
            if qs.len() == 1 {
                assert forall|i: int| 0 <= i < a.len() implies a[i] == b[i] by {
                    assert(mid_p[i + 1] == a[i]);
                    assert(mid_q[i + 1] == b[i]);
                }
                assert(a =~= b);
                assert(ps =~= qs);
            } else {
                assert(mid_p[0] == ']');
                assert(mid_q[0] == ',');
                assert(false);
            }
        } else {
            if qs.len() == 1 {
                assert(mid_p[0] == ',');
                assert(mid_q[0] == ']');
                assert(false);
            } else {
                assert forall|i: int|
                    0 <= i < items_cat(ps.skip(1), a).len() implies items_cat(ps.skip(1), a)[i]
                    == items_cat(qs.skip(1), b)[i] by {
                    assert(mid_p[i + 1] == items_cat(ps.skip(1), a)[i]);
                    assert(mid_q[i + 1] == items_cat(qs.skip(1), b)[i]);
                }
                assert(items_cat(ps.skip(1), a) =~= items_cat(qs.skip(1), b));
                lemma_items_unique(ps.skip(1), qs.skip(1), a, b);
                assert forall|i: int| 1 <= i < ps.len() implies ps[i] == qs[i] by {
                    assert(ps[i] == ps.skip(1)[i - 1]);
                    assert(qs[i] == qs.skip(1)[i - 1]);
                }
                assert(ps =~= qs);
            }
        }
    }
}

/// Splitting a sequence at a point between i and its end.
proof fn lemma_subrange_split(t: Seq<char>, i: int, j: int, n: int)
    requires
        0 <= i <= j <= n <= t.len(),
    ensures
        t.subrange(i, n) == t.subrange(i, j) + t.subrange(j, n),
{
    assert(t.subrange(i, n) =~= t.subrange(i, j) + t.subrange(j, n));
}

/// Relies on `String::push`: appends exactly one character.
#[verifier::external_body]
fn push_char(s: &mut String, c: char)
    ensures
        final(s)@ == old(s)@.push(c),
{
    s.push(c);
}

/// Appends the escaped form of `t` to `out`.
fn append_escaped(out: &mut String, t: &str)
    ensures
        final(out)@ == old(out)@ + esc_string(t@),
{
    let n = t.unicode_len();
    let mut i: usize = 0;
    while i < n
        invariant
            i <= n,
            n == t@.len(),
            out@ == old(out)@ + esc_string(t@.subrange(0, i as int)),
        decreases n - i,
    {
        let c = t.get_char(i);
        if c == '"' || c == '\\' {
            out.append("\\");
            push_char(out, c);
            proof {
                reveal_strlit("\\");
            }
        } else {
            push_char(out, c);
        }
        proof {
            assert(t@.subrange(0, i as int + 1) =~= t@.subrange(0, i as int).push(t@[i as int]));
            lemma_esc_snoc(t@.subrange(0, i as int), t@[i as int]);
            assert(out@ =~= old(out)@ + esc_string(t@.subrange(0, i as int + 1)));
        }
        i += 1;
    }
    proof {
        assert(t@.subrange(0, n as int) =~= t@);
    }
}

/// Appends a quoted string value.
fn append_quoted(out: &mut String, t: &str)
    ensures
        final(out)@ == old(out)@ + quoted(t@),
{
    out.append("\"");
    append_escaped(out, t);
    out.append("\"");
    proof {
        reveal_strlit("\"");
        assert(out@ =~= old(out)@ + quoted(t@));
    }
}

/// Encodes a message into its canonical wire text. Total: every
/// constructible message has an encoding.
pub fn encode(m: &WireMsg) -> (r: String)
    ensures
        r@ == spec_encode(m@),
{
    let mut out = String::new();
    match m {
        WireMsg::Permission { uid, permissions } => {
            out.append("{\"type\":\"permission\",\"uid\":\"");
            append_escaped(&mut out, uid.as_str());
            out.append("\",\"permissions\":[");
            let ghost ps = permissions@.map_values(|p: String| p@);
            let n = permissions.len();
            let mut i: usize = 0;
            while i < n
                invariant
                    i <= n,
                    n == permissions@.len(),
                    ps == permissions@.map_values(|p: String| p@),
                    out@ == "{\"type\":\"permission\",\"uid\":\""@ + esc_string(uid@)
                        + "\",\"permissions\":["@ + perm_items(ps.subrange(0, i as int)),
                decreases n - i,
            {
                if i > 0 {
                    out.append(",");
                }
                append_quoted(&mut out, permissions[i].as_str());
                proof {
                    reveal_strlit(",");
                    assert(ps.subrange(0, i as int + 1) =~= ps.subrange(0, i as int).push(
                        ps[i as int],
                    ));
                    lemma_items_snoc(ps.subrange(0, i as int), ps[i as int]);
                    assert(perm_items(seq![ps[i as int]]) == quoted(ps[i as int]));
                    assert(out@ =~= "{\"type\":\"permission\",\"uid\":\""@ + esc_string(uid@)
                        + "\",\"permissions\":["@ + perm_items(ps.subrange(0, i as int + 1)));
                }
                i += 1;
            }
            out.append("]}");
            proof {
                assert(ps.subrange(0, n as int) =~= ps);
                assert(out@ =~= spec_encode(m@));
            }
        },
        WireMsg::Message { channel, message } => {
            out.append("{\"type\":\"message\",\"channel\":\"");
            append_escaped(&mut out, channel.as_str());
            out.append("\",\"message\":\"");
            append_escaped(&mut out, message.as_str());
            out.append("\"}");
            proof {
                assert(out@ =~= spec_encode(m@));
            }
        },
        WireMsg::Broadcast { channel, message } => {
            out.append("{\"type\":\"broadcast\",\"channel\":\"");
            append_escaped(&mut out, channel.as_str());
            out.append("\",\"message\":\"");
            append_escaped(&mut out, message.as_str());
            out.append("\"}");
            proof {
                assert(out@ =~= spec_encode(m@));
            }
        },
        WireMsg::Uid { uid } => {
            out.append("{\"type\":\"uid\",\"uid\":\"");
            append_escaped(&mut out, uid.as_str());
            out.append("\"}");
            proof {
                assert(out@ =~= spec_encode(m@));
            }
        },
        WireMsg::Subscribe { channel } => {
            out.append("{\"type\":\"subscribe\",\"channel\":\"");
            append_escaped(&mut out, channel.as_str());
            out.append("\"}");
            proof {
                assert(out@ =~= spec_encode(m@));
            }
        },
        WireMsg::Ready => {
            out.append("{\"type\":\"ready\"}");
            proof {
                assert(out@ =~= spec_encode(m@));
            }
        },
    }
    out
}

/// Does `s` carry exactly `lit` at position `i`?
fn expect_lit(s: &str, i: usize, lit: &str) -> (r: Option<usize>)
    requires
        i <= s@.len(),
    ensures
        (match r {
            Some(j) => j == i + lit@.len() && j <= s@.len() && s@.subrange(i as int, j as int)
                == lit@,
            None => !(i + lit@.len() <= s@.len() && s@.subrange(i as int, i + lit@.len()) == lit@),
        }),
{
    let n = s.unicode_len();
    let m = lit.unicode_len();
    if m > n - i {
        return None;
    }
    let mut k: usize = 0;
    while k < m
        invariant
            i + m <= n,
            k <= m,
            n == s@.len(),
            m == lit@.len(),
            forall|t: int| 0 <= t < k ==> s@[i + t] == lit@[t],
        decreases m - k,
    {
        if s.get_char(i + k) != lit.get_char(k) {
            proof {
                if s@.subrange(i as int, i + m as int) == lit@ {
                    assert(s@.subrange(i as int, i + m as int)[k as int] == s@[i + k]);
                }
            }
            return None;
        }
        k += 1;
    }
    proof {
        assert(s@.subrange(i as int, (i + m) as int) =~= lit@);
    }
    Some(i + m)
}

/// Reads an escaped string body up to its closing quote, starting just
/// after the opening quote. Exact: it succeeds precisely on the suffixes
/// that carry such a body.
fn parse_string(s: &str, i: usize) -> (r: Option<(String, usize)>)
    requires
        i <= s@.len(),
    ensures
        (match r {
            Some(p2) => i <= p2.1 <= s@.len() && s@.subrange(i as int, p2.1 as int) == esc_string(
                p2.0@,
            ) + seq!['"'],
            None => !has_str_decomp(s@.subrange(i as int, s@.len() as int)),
        }),
{
    let n = s.unicode_len();
    let mut out = String::new();
    let mut p = i;
    while p < n
        invariant
            i <= p <= n,
            n == s@.len(),
            esc_string(out@) == s@.subrange(i as int, p as int),
            has_str_decomp(s@.subrange(i as int, n as int)) ==> has_str_decomp(
                s@.subrange(p as int, n as int),
            ),
        decreases n - p,
    {
        let c = s.get_char(p);
        if c == '"' {
            proof {
                assert(s@.subrange(i as int, p as int + 1) =~= esc_string(out@) + seq!['"']);
            }
            return Some((out, p + 1));
        } else if c == '\\' {
            if p + 1 < n {
                let c2 = s.get_char(p + 1);
                if c2 == '"' || c2 == '\\' {
                    let ghost pre_out = out@;
                    push_char(&mut out, c2);
                    proof {
                        lemma_esc_snoc(pre_out, c2);
                        assert(esc_string(out@) == esc_string(pre_out) + esc_char(c2));
                        assert(s@.subrange(i as int, p as int + 2) =~= s@.subrange(
                            i as int,
                            p as int,
                        ) + seq!['\\', c2]);
                        assert(esc_char(c2) =~= seq!['\\', c2]);
                        assert(esc_string(out@) =~= s@.subrange(i as int, p as int + 2));
                        if has_str_decomp(s@.subrange(i as int, n as int)) {
                            let (x2, rest2) = choose|x2: Seq<char>, rest2: Seq<char>|
                                s@.subrange(p as int, n as int) == #[trigger] str_cat(x2, rest2);
                            lemma_esc_head(x2, rest2);
                            assert(str_cat(x2, rest2)[0] == s@[p as int]);
                            assert(s@.subrange(p as int + 2, n as int) =~= str_cat(
                                x2,
                                rest2,
                            ).skip(2));
                            assert(s@.subrange(p as int + 2, n as int) == str_cat(
                                x2.skip(1),
                                rest2,
                            ));
                        }
                    }
                    p += 2;
                } else {
                    proof {
                        if has_str_decomp(s@.subrange(i as int, n as int)) {
                            let (x2, rest2) = choose|x2: Seq<char>, rest2: Seq<char>|
                                s@.subrange(p as int, n as int) == #[trigger] str_cat(x2, rest2);
                            lemma_esc_head(x2, rest2);
                            assert(str_cat(x2, rest2)[0] == s@[p as int]);
                            assert(str_cat(x2, rest2)[1] == s@[p as int + 1]);
                            assert(false);
                        }
                    }
                    return None;
                }
            } else {
                proof {
                    if has_str_decomp(s@.subrange(i as int, n as int)) {
                        let (x2, rest2) = choose|x2: Seq<char>, rest2: Seq<char>|
                            s@.subrange(p as int, n as int) == #[trigger] str_cat(x2, rest2);
                        lemma_esc_head(x2, rest2);
                        assert(str_cat(x2, rest2)[0] == s@[p as int]);
                        assert(str_cat(x2, rest2).len() >= 3);
                        assert(false);
                    }
                }
                return None;
            }
        } else {
            let ghost pre_out = out@;
            push_char(&mut out, c);
            proof {
                lemma_esc_snoc(pre_out, c);
                assert(esc_string(out@) == esc_string(pre_out) + esc_char(c));
                assert(s@.subrange(i as int, p as int + 1) =~= s@.subrange(i as int, p as int)
                    + seq![c]);
                assert(esc_char(c) =~= seq![c]);
                assert(esc_string(out@) =~= s@.subrange(i as int, p as int + 1));
                if has_str_decomp(s@.subrange(i as int, n as int)) {
                    let (x2, rest2) = choose|x2: Seq<char>, rest2: Seq<char>|
                        s@.subrange(p as int, n as int) == #[trigger] str_cat(x2, rest2);
                    lemma_esc_head(x2, rest2);
                    assert(str_cat(x2, rest2)[0] == s@[p as int]);
                    assert(s@.subrange(p as int + 1, n as int) =~= str_cat(x2, rest2).skip(1));
                    assert(s@.subrange(p as int + 1, n as int) == str_cat(x2.skip(1), rest2));
                }
            }
            p += 1;
        }
    }
    proof {
        if has_str_decomp(s@.subrange(i as int, n as int)) {
            let (x2, rest2) = choose|x2: Seq<char>, rest2: Seq<char>|
                s@.subrange(p as int, n as int) == #[trigger] str_cat(x2, rest2);
            lemma_esc_head(x2, rest2);
            assert(false);
        }
    }
    None
}

/// Reads the items of a permission list up to and including its closing
/// bracket, starting just after the opening bracket. Exact in the same
/// sense as `parse_string`.
fn parse_permissions(s: &str, i: usize) -> (r: Option<(Vec<String>, usize)>)
    requires
        i <= s@.len(),
    ensures
        (match r {
            Some(p2) => i <= p2.1 <= s@.len() && s@.subrange(i as int, p2.1 as int) == perm_items(
                p2.0@.map_values(|q: String| q@),
            ) + seq![']'],
            None => !has_items_decomp(s@.subrange(i as int, s@.len() as int)),
        }),
{
    let n = s.unicode_len();
    if i == n {
        proof {
            if has_items_decomp(s@.subrange(i as int, n as int)) {
                let (ps, rest) = choose|ps: Seq<Seq<char>>, rest: Seq<char>|
                    s@.subrange(i as int, n as int) == #[trigger] items_cat(ps, rest);
                lemma_items_head(ps, rest);
                assert(false);
            }
        }
        return None;
    }
    if s.get_char(i) == ']' {
        let out: Vec<String> = Vec::new();
        proof {
            assert(out@.map_values(|q: String| q@) =~= Seq::<Seq<char>>::empty());
            assert(s@.subrange(i as int, i as int + 1) =~= perm_items(
                out@.map_values(|q: String| q@),
            ) + seq![']']);
        }
        return Some((out, i + 1));
    }
    let mut items: Vec<String> = Vec::new();
    let mut p = i;
    proof {
        if has_items_decomp(s@.subrange(i as int, n as int)) {
            let (ps, rest) = choose|ps: Seq<Seq<char>>, rest: Seq<char>|
                s@.subrange(i as int, n as int) == #[trigger] items_cat(ps, rest);
            lemma_items_head(ps, rest);
            assert(items_cat(ps, rest)[0] == s@[i as int]);
            assert(ps.len() >= 1);
        }
    }
    loop
        invariant
            i <= p <= n,
            n == s@.len(),
            (items@.len() == 0 ==> p == i),
            (items@.len() > 0 ==> s@.subrange(i as int, p as int) == perm_items(
                items@.map_values(|q: String| q@),
            ) + seq![',']),
            has_items_decomp(s@.subrange(i as int, n as int)) ==> exists|
                ps: Seq<Seq<char>>,
                rest: Seq<char>,
            |
                s@.subrange(p as int, n as int) == #[trigger] items_cat(ps, rest) && ps.len() >= 1,
        decreases n - p,
    {
        let ghost hid = has_items_decomp(s@.subrange(i as int, n as int));
        let ghost (ps, rest) = choose|ps: Seq<Seq<char>>, rest: Seq<char>|
            s@.subrange(p as int, n as int) == #[trigger] items_cat(ps, rest) && ps.len() >= 1;
        proof {
            if hid {
                lemma_items_head(ps, rest);
            }
        }
        if p == n {
            proof {
                if hid {
                    assert(items_cat(ps, rest).len() >= 1);
                    assert(false);
                }
            }
            return None;
        }
        if s.get_char(p) != '"' {
            proof {
                if hid {
                    assert(items_cat(ps, rest)[0] == s@[p as int]);
                    assert(false);
                }
            }
            return None;
        }
        let ghost mid = if ps.len() == 1 {
            seq![']'] + rest
        } else {
            seq![','] + items_cat(ps.skip(1), rest)
        };
        proof {
            if hid {
                assert(items_cat(ps, rest)[0] == s@[p as int]);
                assert(items_cat(ps, rest).skip(1) == str_cat(ps[0], mid));
                assert(s@.subrange(p as int + 1, n as int) =~= items_cat(ps, rest).skip(1));
            }
        }
        match parse_string(s, p + 1) {
            None => {
                proof {
                    if hid {
                        assert(s@.subrange(p as int + 1, n as int) == str_cat(ps[0], mid));
                        assert(false);
                    }
                }
                return None;
            },
            Some((x, j)) => {
                proof {
                    lemma_subrange_split(s@, p as int + 1, j as int, n as int);
                    assert(s@.subrange(p as int + 1, n as int) == str_cat(
                        x@,
                        s@.subrange(j as int, n as int),
                    ));
                    if hid {
                        lemma_esc_unique(x@, ps[0], s@.subrange(j as int, n as int), mid);
                    }
                }
                let ghost prev = items@.map_values(|q: String| q@);
                items.push(x);
                proof {
                    assert(items@.map_values(|q: String| q@) =~= prev.push(x@));
                    lemma_items_snoc(prev, x@);
                    assert(s@.subrange(p as int, p as int + 1) =~= seq!['"']);
                    lemma_subrange_split(s@, i as int, p as int, p as int + 1);
                    lemma_subrange_split(s@, i as int, p as int + 1, j as int);
                    assert(s@.subrange(i as int, j as int) == s@.subrange(i as int, p as int)
                        + seq!['"'] + (esc_string(x@) + seq!['"']));
                    if prev.len() == 0 {
                        assert(s@.subrange(i as int, j as int) =~= perm_items(prev.push(x@)));
                    } else {
                        assert(s@.subrange(i as int, j as int) =~= perm_items(prev) + seq![',']
                            + (seq!['"'] + esc_string(x@) + seq!['"']));
                        assert(quoted(x@) =~= seq!['"'] + esc_string(x@) + seq!['"']);
                        assert(perm_items(seq![x@]) == quoted(x@));
                        assert(s@.subrange(i as int, j as int) =~= perm_items(prev.push(x@)));
                    }
                }
                if j == n {
                    proof {
                        if hid {
                            assert(s@.subrange(j as int, n as int) == mid);
                            assert(mid.len() >= 1);
                            assert(false);
                        }
                    }
                    return None;
                }
                let c = s.get_char(j);
                if c == ']' {
                    proof {
                        lemma_subrange_split(s@, i as int, j as int, j as int + 1);
                        assert(s@.subrange(j as int, j as int + 1) =~= seq![']']);
                        assert(s@.subrange(i as int, j as int + 1) =~= perm_items(
                            items@.map_values(|q: String| q@),
                        ) + seq![']']);
                    }
                    return Some((items, j + 1));
                } else if c == ',' {
                    proof {
                        lemma_subrange_split(s@, i as int, j as int, j as int + 1);
                        assert(s@.subrange(j as int, j as int + 1) =~= seq![',']);
                        assert(s@.subrange(i as int, j as int + 1) =~= perm_items(
                            items@.map_values(|q: String| q@),
                        ) + seq![',']);
                        if hid {
                            assert(s@.subrange(j as int, n as int) == mid);
                            assert(mid[0] == s@[j as int]);
                            assert(ps.len() > 1);
                            assert(s@.subrange(j as int + 1, n as int) =~= mid.skip(1));
                            assert(mid.skip(1) =~= items_cat(ps.skip(1), rest));
                            assert(s@.subrange(j as int + 1, n as int) == items_cat(
                                ps.skip(1),
                                rest,
                            ));
                        }
                    }
                    p = j + 1;
                } else {
                    proof {
                        if hid {
                            assert(s@.subrange(j as int, n as int) == mid);
                            assert(mid[0] == s@[j as int]);
                            assert(false);
                        }
                    }
                    return None;
                }
            },
        }
    }
}

/// Equal sequences with equal prefixes have equal remainders.
proof fn lemma_cat_cancel(a: Seq<char>, b: Seq<char>, c: Seq<char>)
    requires
        a + b == a + c,
    ensures
        b == c,
{
    assert((a + b).len() == a.len() + b.len());
    assert((a + c).len() == a.len() + c.len());
    assert(b.len() == c.len());
    assert forall|t: int| 0 <= t < b.len() implies b[t] == c[t] by {
        assert((a + b)[a.len() + t] == b[t]);
        assert((a + c)[a.len() + t] == c[t]);
    }
    assert(b =~= c);
}

/// The tail of a one-string-field record: the field body, its closing
/// quote and the closing brace.
spec fn one_cat(x: Seq<char>) -> Seq<char> {
    esc_string(x) + "\"}"@
}

/// The tail of a channel-plus-payload record.
spec fn two_cat(x1: Seq<char>, x2: Seq<char>) -> Seq<char> {
    esc_string(x1) + "\",\"message\":\""@ + esc_string(x2) + "\"}"@
}

/// The tail of a permission record: the uid body and the permission list.
spec fn perm_cat(u: Seq<char>, ps: Seq<Seq<char>>) -> Seq<char> {
    esc_string(u) + "\",\"permissions\":["@ + perm_items(ps) + "]}"@
}

/// Reads `esc(x) "\"}"` up to the end of the input. Exact.
fn parse_tail_one(s: &str, i: usize) -> (r: Option<String>)
    requires
        i <= s@.len(),
    ensures
        (match r {
            Some(x) => s@.subrange(i as int, s@.len() as int) == one_cat(x@),
            None => forall|x: Seq<char>|
                s@.subrange(i as int, s@.len() as int) != #[trigger] one_cat(x),
        }),
{
    let n = s.unicode_len();
    match parse_string(s, i) {
        None => {
            proof {
                reveal_strlit("\"}");
                assert forall|x: Seq<char>|
                    s@.subrange(i as int, n as int) != #[trigger] one_cat(x) by {
                    if s@.subrange(i as int, n as int) == one_cat(x) {
                        assert(one_cat(x) =~= str_cat(x, seq!['}']));
                        assert(has_str_decomp(s@.subrange(i as int, n as int)));
                    }
                }
            }
            None
        },
        Some((x, j)) => {
            proof {
                reveal_strlit("\"}");
                lemma_subrange_split(s@, i as int, j as int, n as int);
                assert(s@.subrange(i as int, n as int) == str_cat(
                    x@,
                    s@.subrange(j as int, n as int),
                ));
            }
            if j < n {
                let c = s.get_char(j);
                if c == '}' && j + 1 == n {
                    proof {
                        assert(s@.subrange(j as int, n as int) =~= seq!['}']);
                        assert(s@.subrange(i as int, n as int) =~= one_cat(x@));
                    }
                    return Some(x);
                }
                proof {
                    assert forall|x2: Seq<char>|
                        s@.subrange(i as int, n as int) != #[trigger] one_cat(x2) by {
                        if s@.subrange(i as int, n as int) == one_cat(x2) {
                            assert(one_cat(x2) =~= str_cat(x2, seq!['}']));
                            lemma_esc_unique(x@, x2, s@.subrange(j as int, n as int), seq!['}']);
                            assert(s@.subrange(j as int, n as int)[0] == s@[j as int]);
                        }
                    }
                }
                return None;
            }
            proof {
                assert forall|x2: Seq<char>|
                    s@.subrange(i as int, n as int) != #[trigger] one_cat(x2) by {
                    if s@.subrange(i as int, n as int) == one_cat(x2) {
                        assert(one_cat(x2) =~= str_cat(x2, seq!['}']));
                        lemma_esc_unique(x@, x2, s@.subrange(j as int, n as int), seq!['}']);
                        assert(s@.subrange(j as int, n as int).len() == 1);
                    }
                }
            }
            None
        },
    }
}

/// Reads `esc(x1) "\",\"message\":\"" esc(x2) "\"}"` up to the end of
/// the input. Exact.
fn parse_tail_two(s: &str, i: usize) -> (r: Option<(String, String)>)
    requires
        i <= s@.len(),
    ensures
        (match r {
            Some(p2) => s@.subrange(i as int, s@.len() as int) == two_cat(p2.0@, p2.1@),
            None => forall|x1: Seq<char>, x2: Seq<char>|
                s@.subrange(i as int, s@.len() as int) != #[trigger] two_cat(x1, x2),
        }),
{
    let n = s.unicode_len();
    match parse_string(s, i) {
        None => {
            proof {
                reveal_strlit("\",\"message\":\"");
                reveal_strlit(",\"message\":\"");
                reveal_strlit("\"}");
                assert forall|x1: Seq<char>, x2: Seq<char>|
                    s@.subrange(i as int, n as int) != #[trigger] two_cat(x1, x2) by {
                    if s@.subrange(i as int, n as int) == two_cat(x1, x2) {
                        assert(two_cat(x1, x2) =~= str_cat(
                            x1,
                            ",\"message\":\""@ + esc_string(x2) + "\"}"@,
                        ));
                        assert(has_str_decomp(s@.subrange(i as int, n as int)));
                    }
                }
            }
            None
        },
        Some((x1, j)) => {
            proof {
                reveal_strlit("\",\"message\":\"");
                reveal_strlit(",\"message\":\"");
                reveal_strlit("\"}");
                lemma_subrange_split(s@, i as int, j as int, n as int);
                assert(s@.subrange(i as int, n as int) == str_cat(
                    x1@,
                    s@.subrange(j as int, n as int),
                ));
            }
            let t2 = expect_lit(s, j, ",\"message\":\"");
            match t2 {
                None => {
                    proof {
                        assert forall|y1: Seq<char>, y2: Seq<char>|
                            s@.subrange(i as int, n as int) != #[trigger] two_cat(y1, y2) by {
                            if s@.subrange(i as int, n as int) == two_cat(y1, y2) {
                                let rest = ",\"message\":\""@ + esc_string(y2) + "\"}"@;
                                assert(two_cat(y1, y2) =~= str_cat(y1, rest));
                                lemma_esc_unique(x1@, y1, s@.subrange(j as int, n as int), rest);
                                assert(j + ",\"message\":\""@.len() <= n);
                                assert(s@.subrange(j as int, j + ",\"message\":\""@.len())
                                    =~= ",\"message\":\""@);
                            }
                        }
                    }
                    None
                },
                Some(j2) => {
                    match parse_tail_one(s, j2) {
                        None => {
                            proof {
                                assert forall|y1: Seq<char>, y2: Seq<char>|
                                    s@.subrange(i as int, n as int) != #[trigger] two_cat(
                                    y1,
                                    y2,
                                ) by {
                                    if s@.subrange(i as int, n as int) == two_cat(y1, y2) {
                                        let rest = ",\"message\":\""@ + esc_string(y2) + "\"}"@;
                                        assert(two_cat(y1, y2) =~= str_cat(y1, rest));
                                        lemma_esc_unique(
                                            x1@,
                                            y1,
                                            s@.subrange(j as int, n as int),
                                            rest,
                                        );
                                        lemma_subrange_split(s@, j as int, j2 as int, n as int);
                                        assert(rest =~= ",\"message\":\""@ + one_cat(y2));
                                        assert(s@.subrange(j as int, n as int) == ",\"message\":\""@
                                            + s@.subrange(j2 as int, n as int));
                                        lemma_cat_cancel(
                                            ",\"message\":\""@,
                                            s@.subrange(j2 as int, n as int),
                                            one_cat(y2),
                                        );
                                    }
                                }
                            }
                            None
                        },
                        Some(x2) => {
                            proof {
                                lemma_subrange_split(s@, i as int, j as int, j2 as int);
                                lemma_subrange_split(s@, i as int, j2 as int, n as int);
                                assert(s@.subrange(i as int, n as int) =~= two_cat(x1@, x2@));
                            }
                            Some((x1, x2))
                        },
                    }
                },
            }
        },
    }
}

/// Reads `esc(uid) "\",\"permissions\":[" items "]}"` up to the end of
/// the input. Exact.
fn parse_tail_permission(s: &str, i: usize) -> (r: Option<(String, Vec<String>)>)
    requires
        i <= s@.len(),
    ensures
        (match r {
            Some(p2) => s@.subrange(i as int, s@.len() as int) == perm_cat(
                p2.0@,
                p2.1@.map_values(|q: String| q@),
            ),
            None => forall|u: Seq<char>, ps: Seq<Seq<char>>|
                s@.subrange(i as int, s@.len() as int) != #[trigger] perm_cat(u, ps),
        }),
{
    let n = s.unicode_len();
    match parse_string(s, i) {
        None => {
            proof {
                reveal_strlit("\",\"permissions\":[");
                reveal_strlit(",\"permissions\":[");
                reveal_strlit("]}");
                assert forall|u: Seq<char>, ps: Seq<Seq<char>>|
                    s@.subrange(i as int, n as int) != #[trigger] perm_cat(u, ps) by {
                    if s@.subrange(i as int, n as int) == perm_cat(u, ps) {
                        assert(perm_cat(u, ps) =~= str_cat(
                            u,
                            ",\"permissions\":["@ + perm_items(ps) + "]}"@,
                        ));
                        assert(has_str_decomp(s@.subrange(i as int, n as int)));
                    }
                }
            }
            None
        },
        Some((uid, j)) => {
            proof {
                reveal_strlit("\",\"permissions\":[");
                reveal_strlit(",\"permissions\":[");
                reveal_strlit("]}");
                lemma_subrange_split(s@, i as int, j as int, n as int);
                assert(s@.subrange(i as int, n as int) == str_cat(
                    uid@,
                    s@.subrange(j as int, n as int),
                ));
            }
            let t2 = expect_lit(s, j, ",\"permissions\":[");
            match t2 {
                None => {
                    proof {
                        assert forall|u: Seq<char>, ps: Seq<Seq<char>>|
                            s@.subrange(i as int, n as int) != #[trigger] perm_cat(u, ps) by {
                            if s@.subrange(i as int, n as int) == perm_cat(u, ps) {
                                let rest = ",\"permissions\":["@ + perm_items(ps) + "]}"@;
                                assert(perm_cat(u, ps) =~= str_cat(u, rest));
                                lemma_esc_unique(uid@, u, s@.subrange(j as int, n as int), rest);
                                assert(j + ",\"permissions\":["@.len() <= n);
                                assert(s@.subrange(j as int, j + ",\"permissions\":["@.len())
                                    =~= ",\"permissions\":["@);
                            }
                        }
                    }
                    None
                },
                Some(j2) => {
                    match parse_permissions(s, j2) {
                        None => {
                            proof {
                                assert forall|u: Seq<char>, ps: Seq<Seq<char>>|
                                    s@.subrange(i as int, n as int) != #[trigger] perm_cat(
                                    u,
                                    ps,
                                ) by {
                                    if s@.subrange(i as int, n as int) == perm_cat(u, ps) {
                                        let rest = ",\"permissions\":["@ + perm_items(ps) + "]}"@;
                                        assert(perm_cat(u, ps) =~= str_cat(u, rest));
                                        lemma_esc_unique(
                                            uid@,
                                            u,
                                            s@.subrange(j as int, n as int),
                                            rest,
                                        );
                                        lemma_subrange_split(s@, j as int, j2 as int, n as int);
                                        assert(rest =~= ",\"permissions\":["@ + items_cat(
                                            ps,
                                            seq!['}'],
                                        ));
                                        assert(s@.subrange(j as int, n as int)
                                            == ",\"permissions\":["@ + s@.subrange(
                                            j2 as int,
                                            n as int,
                                        ));
                                        lemma_cat_cancel(
                                            ",\"permissions\":["@,
                                            s@.subrange(j2 as int, n as int),
                                            items_cat(ps, seq!['}']),
                                        );
                                        assert(has_items_decomp(
                                            s@.subrange(j2 as int, n as int),
                                        ));
                                    }
                                }
                            }
                            None
                        },
                        Some((perms, j3)) => {
                            proof {
                                lemma_subrange_split(s@, j2 as int, j3 as int, n as int);
                                assert(s@.subrange(j2 as int, n as int) == items_cat(
                                    perms@.map_values(|q: String| q@),
                                    s@.subrange(j3 as int, n as int),
                                ));
                            }
                            if j3 < n {
                                let c = s.get_char(j3);
                                if c == '}' && j3 + 1 == n {
                                    proof {
                                        assert(s@.subrange(j3 as int, n as int) =~= seq!['}']);
                                        lemma_subrange_split(s@, i as int, j as int, j2 as int);
                                        lemma_subrange_split(s@, i as int, j2 as int, n as int);
                                        assert(s@.subrange(i as int, n as int) =~= perm_cat(
                                            uid@,
                                            perms@.map_values(|q: String| q@),
                                        ));
                                    }
                                    return Some((uid, perms));
                                }
                            }
                            proof {
                                assert forall|u: Seq<char>, ps: Seq<Seq<char>>|
                                    s@.subrange(i as int, n as int) != #[trigger] perm_cat(
                                    u,
                                    ps,
                                ) by {
                                    if s@.subrange(i as int, n as int) == perm_cat(u, ps) {
                                        let rest = ",\"permissions\":["@ + perm_items(ps) + "]}"@;
                                        assert(perm_cat(u, ps) =~= str_cat(u, rest));
                                        lemma_esc_unique(
                                            uid@,
                                            u,
                                            s@.subrange(j as int, n as int),
                                            rest,
                                        );
                                        lemma_subrange_split(s@, j as int, j2 as int, n as int);
                                        assert(rest =~= ",\"permissions\":["@ + items_cat(
                                            ps,
                                            seq!['}'],
                                        ));
                                        assert(s@.subrange(j as int, n as int)
                                            == ",\"permissions\":["@ + s@.subrange(
                                            j2 as int,
                                            n as int,
                                        ));
                                        lemma_cat_cancel(
                                            ",\"permissions\":["@,
                                            s@.subrange(j2 as int, n as int),
                                            items_cat(ps, seq!['}']),
                                        );
                                        lemma_items_unique(
                                            perms@.map_values(|q: String| q@),
                                            ps,
                                            s@.subrange(j3 as int, n as int),
                                            seq!['}'],
                                        );
                                        assert(s@.subrange(j3 as int, n as int) =~= seq!['}']);
                                        assert(s@.subrange(j3 as int, n as int)[0]
                                            == s@[j3 as int]);
                                    }
                                }
                            }
                            None
                        },
                    }
                },
            }
        },
    }
}

/// Decodes one frame of wire text. Exact inverse of [`encode`]: it
/// returns `Ok(m)` precisely when the input is the canonical encoding of
/// `m`, and `Err` on every other input, without panicking.
pub fn decode(s: &str) -> (r: Result<WireMsg, DecodeError>)
    ensures
        (r matches Ok(m) ==> s@ == spec_encode(m@)),
        (r is Err ==> forall|m: MsgModel| s@ != spec_encode(m)),
{
    let n = s.unicode_len();
    let tp = expect_lit(s, 0, "{\"type\":\"permission\",\"uid\":\"");
    if let Some(j) = tp {
        match parse_tail_permission(s, j) {
            Some((uid, permissions)) => {
                let w = WireMsg::Permission { uid, permissions };
                proof {
                    lemma_subrange_split(s@, 0, j as int, n as int);
                    assert(s@ =~= "{\"type\":\"permission\",\"uid\":\""@ + s@.subrange(
                        j as int,
                        n as int,
                    ));
                    assert(s@ =~= spec_encode(w@));
                }
                return Ok(w);
            },
            None => {
                proof {
                    lemma_decode_err_tagged(s@, j as int, n as int, 0);
                }
                return Err(DecodeError::Malformed);
            },
        }
    }
    let tm = expect_lit(s, 0, "{\"type\":\"message\",\"channel\":\"");
    if let Some(j) = tm {
        match parse_tail_two(s, j) {
            Some((channel, message)) => {
                let w = WireMsg::Message { channel, message };
                proof {
                    lemma_subrange_split(s@, 0, j as int, n as int);
                    assert(s@ =~= "{\"type\":\"message\",\"channel\":\""@ + s@.subrange(
                        j as int,
                        n as int,
                    ));
                    assert(s@ =~= spec_encode(w@));
                }
                return Ok(w);
            },
            None => {
                proof {
                    lemma_decode_err_tagged(s@, j as int, n as int, 1);
                }
                return Err(DecodeError::Malformed);
            },
        }
    }
    let tb = expect_lit(s, 0, "{\"type\":\"broadcast\",\"channel\":\"");
    if let Some(j) = tb {
        match parse_tail_two(s, j) {
            Some((channel, message)) => {
                let w = WireMsg::Broadcast { channel, message };
                proof {
                    lemma_subrange_split(s@, 0, j as int, n as int);
                    assert(s@ =~= "{\"type\":\"broadcast\",\"channel\":\""@ + s@.subrange(
                        j as int,
                        n as int,
                    ));
                    assert(s@ =~= spec_encode(w@));
                }
                return Ok(w);
            },
            None => {
                proof {
                    lemma_decode_err_tagged(s@, j as int, n as int, 2);
                }
                return Err(DecodeError::Malformed);
            },
        }
    }
    let tu = expect_lit(s, 0, "{\"type\":\"uid\",\"uid\":\"");
    if let Some(j) = tu {
        match parse_tail_one(s, j) {
            Some(uid) => {
                let w = WireMsg::Uid { uid };
                proof {
                    lemma_subrange_split(s@, 0, j as int, n as int);
                    assert(s@ =~= "{\"type\":\"uid\",\"uid\":\""@ + s@.subrange(j as int, n as int));
                    assert(s@ =~= spec_encode(w@));
                }
                return Ok(w);
            },
            None => {
                proof {
                    lemma_decode_err_tagged(s@, j as int, n as int, 3);
                }
                return Err(DecodeError::Malformed);
            },
        }
    }
    let ts = expect_lit(s, 0, "{\"type\":\"subscribe\",\"channel\":\"");
    if let Some(j) = ts {
        match parse_tail_one(s, j) {
            Some(channel) => {
                let w = WireMsg::Subscribe { channel };
                proof {
                    lemma_subrange_split(s@, 0, j as int, n as int);
                    assert(s@ =~= "{\"type\":\"subscribe\",\"channel\":\""@ + s@.subrange(
                        j as int,
                        n as int,
                    ));
                    assert(s@ =~= spec_encode(w@));
                }
                return Ok(w);
            },
            None => {
                proof {
                    lemma_decode_err_tagged(s@, j as int, n as int, 4);
                }
                return Err(DecodeError::Malformed);
            },
        }
    }
    let tr = expect_lit(s, 0, "{\"type\":\"ready\"}");
    if let Some(j) = tr {
        if j == n {
            proof {
                assert(s@ =~= s@.subrange(0, j as int));
                assert(s@ == spec_encode(MsgModel::Ready));
            }
            return Ok(WireMsg::Ready);
        }
        proof {
            lemma_decode_err_tagged(s@, j as int, n as int, 5);
        }
        return Err(DecodeError::Malformed);
    }
    proof {
        assert forall|m: MsgModel| s@ != spec_encode(m) by {
            if s@ == spec_encode(m) {
                lemma_tag_of_encode(m);
                let tag = tag_lit(tag_index(m));
                assert(s@.subrange(0, tag.len() as int) =~= tag);
                assert(tag.len() <= s@.len());
            }
        }
    }
    Err(DecodeError::Malformed)
}

/// The tag prefix of each variant's encoding, numbered in the order the
/// decoder tries them.
spec fn tag_lit(k: int) -> Seq<char> {
    if k == 0 {
        "{\"type\":\"permission\",\"uid\":\""@
    } else if k == 1 {
        "{\"type\":\"message\",\"channel\":\""@
    } else if k == 2 {
        "{\"type\":\"broadcast\",\"channel\":\""@
    } else if k == 3 {
        "{\"type\":\"uid\",\"uid\":\""@
    } else if k == 4 {
        "{\"type\":\"subscribe\",\"channel\":\""@
    } else {
        "{\"type\":\"ready\"}"@
    }
}

spec fn tag_index(m: MsgModel) -> int {
    match m {
        MsgModel::Permission { .. } => 0,
        MsgModel::Message { .. } => 1,
        MsgModel::Broadcast { .. } => 2,
        MsgModel::Uid { .. } => 3,
        MsgModel::Subscribe { .. } => 4,
        MsgModel::Ready => 5,
    }
}

/// The tail of each variant's encoding, after its tag.
spec fn tail_of_encode(m: MsgModel) -> Seq<char> {
    match m {
        MsgModel::Permission { uid, permissions } => perm_cat(uid, permissions),
        MsgModel::Message { channel, message } => two_cat(channel, message),
        MsgModel::Broadcast { channel, message } => two_cat(channel, message),
        MsgModel::Uid { uid } => one_cat(uid),
        MsgModel::Subscribe { channel } => one_cat(channel),
        MsgModel::Ready => Seq::empty(),
    }
}

proof fn reveal_tags()
    ensures
        tag_lit(0).len() == 28,
        tag_lit(1).len() == 29,
        tag_lit(2).len() == 31,
        tag_lit(3).len() == 21,
        tag_lit(4).len() == 31,
        tag_lit(5).len() == 16,
        tag_lit(0)[9] == 'p',
        tag_lit(1)[9] == 'm',
        tag_lit(2)[9] == 'b',
        tag_lit(3)[9] == 'u',
        tag_lit(4)[9] == 's',
        tag_lit(5)[9] == 'r',
{
    reveal_strlit("{\"type\":\"permission\",\"uid\":\"");
    reveal_strlit("{\"type\":\"message\",\"channel\":\"");
    reveal_strlit("{\"type\":\"broadcast\",\"channel\":\"");
    reveal_strlit("{\"type\":\"uid\",\"uid\":\"");
    reveal_strlit("{\"type\":\"subscribe\",\"channel\":\"");
    reveal_strlit("{\"type\":\"ready\"}");
}

/// Every encoding starts with its variant's tag and continues with the
/// variant's tail.
proof fn lemma_tag_of_encode(m: MsgModel)
    ensures
        spec_encode(m) == tag_lit(tag_index(m)) + tail_of_encode(m),
        spec_encode(m).len() >= 10,
        spec_encode(m)[9] == tag_lit(tag_index(m))[9],
{
    reveal_tags();
    assert(spec_encode(m) =~= tag_lit(tag_index(m)) + tail_of_encode(m));
}

/// When the decoder has matched tag `k` but the tail parse has failed
/// with the facts recorded below, no message encodes to `t`.
proof fn lemma_decode_err_tagged(t: Seq<char>, j: int, n: int, k: int)
    requires
        0 <= k <= 5,
        n == t.len(),
        0 <= j <= n,
        j == tag_lit(k).len(),
        t.subrange(0, j) == tag_lit(k),
        k == 0 ==> forall|u: Seq<char>, ps: Seq<Seq<char>>| t.subrange(j, n) != #[trigger] perm_cat(u, ps),
        (k == 1 || k == 2) ==> forall|x1: Seq<char>, x2: Seq<char>| t.subrange(j, n) != #[trigger] two_cat(x1, x2),
        (k == 3 || k == 4) ==> forall|x: Seq<char>| t.subrange(j, n) != #[trigger] one_cat(x),
        k == 5 ==> j != n,
    ensures
        forall|m: MsgModel| t != spec_encode(m),
{
    reveal_tags();
    assert forall|m: MsgModel| t != spec_encode(m) by {
        if t == spec_encode(m) {
            lemma_tag_of_encode(m);
            assert(t[9] == tag_lit(k)[9]);
            assert(tag_index(m) == k);
            assert(t == tag_lit(k) + tail_of_encode(m));
            assert(t.subrange(0, j) + t.subrange(j, n) =~= t);
            lemma_cat_cancel(tag_lit(k), t.subrange(j, n), tail_of_encode(m));
            if k == 5 {
                assert(t.subrange(j, n) =~= Seq::<char>::empty());
            }
        }
    }
}

} // verus!
