//! The canonical text form of the log: one block record per line, in a fixed
//! field order with a fixed escape set, so that identical logical content
//! always serializes to identical characters.
use vstd::prelude::*;
use vstd::string::*;
use crate::block::{Block, BlockHeader, BlockRecord, BlockV, HeaderV, RecordV};
use crate::hash::{hex_digit, hex_of, hex_val, lemma_hex_of_append};
use crate::tx::{Account, Tx, TxV};

verus! {

broadcast use vstd::array::group_array_axioms, vstd::string::group_string_axioms;

/// Canonical decimal rendering of a number, most significant digit first,
/// without leading zeros (the first ten hex digits are the decimal digits).
pub open spec fn dec(n: nat) -> Seq<char>
    decreases n,
{
    if n < 10 {
        seq![hex_digit(n as int)]
    } else {
        dec(n / 10) + seq![hex_digit((n % 10) as int)]
    }
}

/// How one character is written inside a quoted string: backslash, quote and
/// newline get a two-character escape, every other character stands as itself.
pub open spec fn esc_char(c: char) -> Seq<char> {
    if c == '\\' {
        seq!['\\', '\\']
    } else if c == '"' {
        seq!['\\', '"']
    } else if c == '\n' {
        seq!['\\', 'n']
    } else {
        seq![c]
    }
}

/// The escaped form of a string's characters.
pub open spec fn esc(s: Seq<char>) -> Seq<char>
    decreases s.len(),
{
    if s.len() == 0 {
        Seq::empty()
    } else {
        esc_char(s[0]) + esc(s.drop_first())
    }
}

pub proof fn lemma_esc_append(a: Seq<char>, b: Seq<char>)
    ensures
        esc(a + b) == esc(a) + esc(b),
    decreases a.len(),
{
    if a.len() == 0 {
        assert(a + b =~= b);
        assert(esc(a) + esc(b) =~= esc(b));
    } else {
        lemma_esc_append(a.drop_first(), b);
        assert((a + b).drop_first() =~= a.drop_first() + b);
        assert(esc(a + b) =~= esc(a) + esc(b));
    }
}

pub proof fn lemma_esc_one(c: char)
    ensures
        esc(seq![c]) == esc_char(c),
{
    assert(seq![c].drop_first() =~= Seq::<char>::empty());
    assert(esc(Seq::<char>::empty()) =~= Seq::<char>::empty());
    assert(esc(seq![c]) =~= esc_char(c));
}

/// The canonical serialized transaction.
pub open spec fn tx_json(t: TxV) -> Seq<char> {
    "{\"from\":\""@ + esc(t.from) + "\""@ + ",\"to\":\""@ + esc(t.to) + "\""@ + ",\"value\":"@
        + dec(t.value as nat) + ",\"data\":\""@ + esc(t.data) + "\""@ + "}"@
}

/// The canonical serialized transaction sequence, comma separated.
pub open spec fn txs_json(ts: Seq<TxV>) -> Seq<char>
    decreases ts.len(),
{
    if ts.len() == 0 {
        Seq::empty()
    } else if ts.len() == 1 {
        tx_json(ts[0])
    } else {
        tx_json(ts[0]) + ","@ + txs_json(ts.drop_first())
    }
}

/// The canonical serialized header: parent hash in lowercase hex, then the
/// height and creation time in decimal.
pub open spec fn header_json(h: HeaderV) -> Seq<char> {
    "{\"parent\":\""@ + hex_of(h.parent) + "\""@ + ",\"height\":"@ + dec(h.height as nat)
        + ",\"time\":"@ + dec(h.time as nat) + "}"@
}

/// The canonical serialized block.
pub open spec fn block_json(b: BlockV) -> Seq<char> {
    "{\"header\":"@ + header_json(b.header) + ",\"payload\":["@ + txs_json(b.txs) + "]"@ + "}"@
}

/// The canonical serialized block record: one log line.
pub open spec fn record_json(r: RecordV) -> Seq<char> {
    "{\"hash\":\""@ + esc(r.blockhash) + "\""@ + ",\"block\":"@ + block_json(r.block) + "}"@
}

pub proof fn lemma_txs_json_snoc(ts: Seq<TxV>, t: TxV)
    ensures
        ts.len() == 0 ==> txs_json(ts.push(t)) == tx_json(t),
        ts.len() > 0 ==> txs_json(ts.push(t)) == txs_json(ts) + ","@ + tx_json(t),
    decreases ts.len(),
{
    if ts.len() == 0 {
        assert(ts.push(t)[0] == t);
        assert(txs_json(ts.push(t)) == tx_json(t));
    } else {
        lemma_txs_json_snoc(ts.drop_first(), t);
        assert(ts.push(t).drop_first() =~= ts.drop_first().push(t));
        if ts.len() == 1 {
            assert(txs_json(ts.push(t)) =~= txs_json(ts) + ","@ + tx_json(t));
        } else {
            assert(txs_json(ts.push(t)) =~= txs_json(ts) + ","@ + tx_json(t));
        }
    }
}

pub proof fn lemma_dec_digits(n: nat)
    ensures
        dec(n).len() >= 1,
        forall|i: int| 0 <= i < dec(n).len() ==> is_digit(#[trigger] dec(n)[i]),
    decreases n,
{
    if n >= 10 {
        lemma_dec_digits(n / 10);
        assert forall|i: int| 0 <= i < dec(n).len() implies is_digit(#[trigger] dec(n)[i]) by {
            if i < dec(n / 10).len() {
                assert(dec(n)[i] == dec(n / 10)[i]);
            } else {
                assert(dec(n)[i] == hex_digit((n % 10) as int));
            }
        }
    }
}

/// A positive number's digits never begin with a zero.
proof fn lemma_dec_no_leading_zero(n: nat)
    ensures
        n > 0 ==> dec(n)[0] != '0',
    decreases n,
{
    if n >= 10 {
        lemma_dec_digits(n / 10);
        lemma_dec_no_leading_zero(n / 10);
        assert(dec(n)[0] == dec(n / 10)[0]);
    }
}

/// Appending the digit of `d` to the digits of `v` writes `v * 10 + d`.
proof fn lemma_dec_snoc(v: nat, d: nat)
    requires
        1 <= v,
        d < 10,
    ensures
        dec(v * 10 + d) == dec(v) + seq![hex_digit(d as int)],
{
    assert((v * 10 + d) / 10 == v && (v * 10 + d) % 10 == d) by (nonlinear_arith)
        requires
            1 <= v,
            0 <= d < 10,
    ;
}

/// Two numbers with the same digits are the same number.
proof fn lemma_dec_inj(a: nat, b: nat)
    requires
        dec(a) == dec(b),
    ensures
        a == b,
    decreases a,
{
    lemma_dec_digits(a);
    lemma_dec_digits(b);
    if a < 10 && b < 10 {
        assert(dec(a)[0] == hex_digit(a as int));
        assert(dec(b)[0] == hex_digit(b as int));
    } else if a < 10 {
        lemma_dec_digits(b / 10);
        assert(dec(b).len() >= 2);
    } else if b < 10 {
        lemma_dec_digits(a / 10);
        assert(dec(a).len() >= 2);
    } else {
        assert(dec(a).last() == hex_digit((a % 10) as int));
        assert(dec(b).last() == hex_digit((b % 10) as int));
        assert(a % 10 == b % 10);
        assert(dec(a).drop_last() =~= dec(a / 10));
        assert(dec(b).drop_last() =~= dec(b / 10));
        lemma_dec_inj(a / 10, b / 10);
    }
}

/// A number whose digits extend another number's digits is at least as large.
proof fn lemma_dec_prefix_ge(a: nat, b: nat, t: Seq<char>)
    requires
        dec(a) == dec(b) + t,
    ensures
        a >= b,
    decreases t.len(),
{
    if t.len() == 0 {
        assert(dec(a) =~= dec(b));
        lemma_dec_inj(a, b);
    } else {
        lemma_dec_digits(a);
        lemma_dec_digits(b);
        if a < 10 {
            assert(dec(a).len() == 1);
            assert(dec(a).len() == dec(b).len() + t.len());
        } else {
            assert(dec(a).drop_last() =~= dec(a / 10));
            assert((dec(b) + t).drop_last() =~= dec(b) + t.drop_last());
            lemma_dec_prefix_ge(a / 10, b, t.drop_last());
            assert(a >= a / 10) by (nonlinear_arith)
                requires
                    a >= 10,
            ;
        }
    }
}

/// Appends the canonical decimal digits of `n`.
pub fn push_dec(out: &mut String, n: u64)
    ensures
        final(out)@ == old(out)@ + dec(n as nat),
    decreases n,
{
    if n >= 10 {
        push_dec(out, n / 10);
    }
    crate::hash::push_hex_digit(out, (n % 10) as u8);
    proof {
        if n < 10 {
            assert(out@ =~= old(out)@ + dec(n as nat));
        } else {
            assert(out@ =~= old(out)@ + dec(n as nat));
        }
    }
}

/// Appends the escaped form of a string's characters.
pub fn push_escaped(out: &mut String, s: &str)
    ensures
        final(out)@ == old(out)@ + esc(s@),
{
    let n = s.unicode_len();
    let mut i: usize = 0;
    proof {
        assert(s@.subrange(0, 0) =~= Seq::<char>::empty());
        assert(esc(Seq::<char>::empty()) =~= Seq::<char>::empty());
        assert(out@ =~= old(out)@ + esc(s@.subrange(0, 0)));
    }
    while i < n
        invariant
            i <= n,
            n == s@.len(),
            out@ == old(out)@ + esc(s@.subrange(0, i as int)),
        decreases n - i,
    {
        let c = s.get_char(i);
        if c == '\\' {
            proof {
                reveal_strlit("\\\\");
            }
            out.append("\\\\");
            assert(("\\\\")@ =~= esc_char(c));
        } else if c == '"' {
            proof {
                reveal_strlit("\\\"");
            }
            out.append("\\\"");
            assert(("\\\"")@ =~= esc_char(c));
        } else if c == '\n' {
            proof {
                reveal_strlit("\\n");
            }
            out.append("\\n");
            assert(("\\n")@ =~= esc_char(c));
        } else {
            let piece = s.substring_char(i, i + 1);
            out.append(piece);
            assert(piece@ =~= esc_char(c));
        }
        proof {
            let pre = s@.subrange(0, i as int);
            assert(s@.subrange(0, i + 1) =~= pre + seq![c]);
            lemma_esc_append(pre, seq![c]);
            lemma_esc_one(c);
            assert(out@ =~= old(out)@ + esc(s@.subrange(0, i + 1)));
        }
        i = i + 1;
    }
    proof {
        assert(s@.subrange(0, n as int) =~= s@);
    }
}

/// Appends the canonical serialized transaction.
fn push_tx(out: &mut String, t: &Tx)
    ensures
        final(out)@ == old(out)@ + tx_json(t@),
{
    out.append("{\"from\":\"");
    push_escaped(out, t.from.0.as_str());
    out.append("\"");
    out.append(",\"to\":\"");
    push_escaped(out, t.to.0.as_str());
    out.append("\"");
    out.append(",\"value\":");
    push_dec(out, t.value);
    out.append(",\"data\":\"");
    push_escaped(out, t.data.as_str());
    out.append("\"");
    out.append("}");
    assert(out@ =~= old(out)@ + tx_json(t@));
}

/// Appends the canonical serialized header.
fn push_header(out: &mut String, h: &BlockHeader)
    ensures
        final(out)@ == old(out)@ + header_json(h@),
{
    out.append("{\"parent\":\"");
    let hexed = h.parent.to_hex();
    out.append(hexed.as_str());
    out.append("\"");
    out.append(",\"height\":");
    push_dec(out, h.height);
    out.append(",\"time\":");
    push_dec(out, h.time);
    out.append("}");
    assert(out@ =~= old(out)@ + header_json(h@));
}

/// The canonical serialized block, used both for hashing and for the log.
pub fn encode_block(b: &Block) -> (r: String)
    ensures
        r@ == block_json(b@),
{
    let mut out = String::new();
    out.append("{\"header\":");
    push_header(&mut out, &b.header);
    out.append(",\"payload\":[");
    let ghost mid = out@;
    let n = b.txs.len();
    let mut i: usize = 0;
    while i < n
        invariant
            i <= n,
            n == b.txs@.len(),
            out@ == mid + txs_json(crate::block::txs_view(b.txs@).subrange(0, i as int)),
        decreases n - i,
    {
        if i > 0 {
            out.append(",");
        }
        push_tx(&mut out, &b.txs[i]);
        proof {
            let tv = crate::block::txs_view(b.txs@);
            assert(tv.subrange(0, i + 1) =~= tv.subrange(0, i as int).push(tv[i as int]));
            lemma_txs_json_snoc(tv.subrange(0, i as int), tv[i as int]);
            assert(out@ =~= mid + txs_json(tv.subrange(0, i + 1)));
        }
        i = i + 1;
    }
    proof {
        let tv = crate::block::txs_view(b.txs@);
        assert(tv.subrange(0, n as int) =~= tv);
    }
    out.append("]");
    out.append("}");
    assert(out@ =~= block_json(b@));
    out
}

/// The canonical log line of a block record (without the terminating newline).
pub fn encode_record(rec: &BlockRecord) -> (r: String)
    ensures
        r@ == record_json(rec@),
{
    let mut out = String::new();
    out.append("{\"hash\":\"");
    push_escaped(&mut out, rec.blockhash.as_str());
    out.append("\"");
    out.append(",\"block\":");
    let body = encode_block(&rec.block);
    out.append(body.as_str());
    out.append("}");
    assert(out@ =~= record_json(rec@));
    out
}


/// A decimal digit character.
pub open spec fn is_digit(c: char) -> bool {
    '0' as u32 <= c as u32 && c as u32 <= '9' as u32
}

/// A strict lowercase hex digit, as the canonical encoding emits.
pub open spec fn is_lower_hex(c: char) -> bool {
    is_digit(c) || ('a' as u32 <= c as u32 && c as u32 <= 'f' as u32)
}

proof fn lemma_lower_hex_inverse(c: char)
    requires
        is_lower_hex(c),
    ensures
        0 <= hex_val(c) < 16,
        hex_digit(hex_val(c)) == c,
{
}

/// Consumes an exact literal at position `i`; a mismatch means the literal
/// really does not stand there.
pub(crate) fn expect_lit(s: &str, i: usize, lit: &str) -> (r: Option<usize>)
    ensures
        match r {
            Some(j) => i + lit@.len() == j && j <= s@.len() && s@.subrange(i as int, j as int)
                == lit@,
            None => !(i + lit@.len() <= s@.len() && s@.subrange(i as int, i + lit@.len()) == lit@),
        },
{
    let n = s.unicode_len();
    let m = lit.unicode_len();
    if i > n || m > n - i {
        return None;
    }
    let mut k: usize = 0;
    while k < m
        invariant
            k <= m,
            m == lit@.len(),
            n == s@.len(),
            i + m <= n,
            forall|j: int| 0 <= j < k ==> s@[i + j] == lit@[j],
        decreases m - k,
    {
        if s.get_char(i + k) != lit.get_char(k) {
            proof {
                if s@.subrange(i as int, i + m) == lit@ {
                    assert(s@.subrange(i as int, i + m)[k as int] == s@[i + k]);
                }
            }
            return None;
        }
        k = k + 1;
    }
    proof {
        assert(s@.subrange(i as int, i + m) =~= lit@);
    }
    Some(i + m)
}

/// A character that the canonical escaping does not write as itself.
pub open spec fn needs_escape(c: char) -> bool {
    c == '\\' || c == '"' || c == '\n'
}

/// The second character of an escape pair.
pub open spec fn esc_code(c: char) -> char {
    if c == '\\' {
        '\\'
    } else if c == '"' {
        '"'
    } else {
        'n'
    }
}

/// How a text of the form "escaped string, then quote" must begin: a quote
/// means the string is done; a backslash opens an escape pair; anything else
/// is the string's own next character.
proof fn lemma_esc_match_head(tr: Seq<char>, piece: Seq<char>)
    requires
        piece == esc(tr) + seq!['"'],
    ensures
        piece.len() >= 1,
        (tr.len() == 0) == (piece[0] == '"'),
        tr.len() == 0 ==> piece.len() == 1,
        piece[0] == '\\' ==> piece.len() >= 3 && tr.len() > 0 && needs_escape(tr[0]) && piece[1]
            == esc_code(tr[0]) && piece.skip(2) == esc(tr.drop_first()) + seq!['"'],
        piece[0] != '"' && piece[0] != '\\' ==> tr.len() > 0 && !needs_escape(tr[0]) && tr[0]
            == piece[0] && piece.skip(1) == esc(tr.drop_first()) + seq!['"'],
{
    if tr.len() == 0 {
        assert(esc(tr) =~= Seq::<char>::empty());
        assert(piece =~= seq!['"']);
    } else {
        assert(esc(tr) == esc_char(tr[0]) + esc(tr.drop_first()));
        if needs_escape(tr[0]) {
            assert(esc_char(tr[0]) =~= seq!['\\', esc_code(tr[0])]);
            assert(piece[0] == '\\');
            assert(piece[1] == esc_code(tr[0]));
            assert(piece.skip(2) =~= esc(tr.drop_first()) + seq!['"']);
        } else {
            assert(esc_char(tr[0]) =~= seq![tr[0]]);
            assert(piece[0] == tr[0]);
            assert(piece.skip(1) =~= esc(tr.drop_first()) + seq!['"']);
        }
    }
}

/// Where a match of "escaped string, then quote" must end, given how much of
/// the text is already accounted for by the decoded prefix.
proof fn lemma_match_position(text: Seq<char>, i: int, p: int, j2: int, out0: Seq<char>, t2: Seq<char>)
    requires
        0 <= i <= p <= text.len(),
        i <= j2 <= text.len(),
        text.subrange(i, p) == esc(out0),
        text.subrange(i, j2) == esc(t2) + seq!['"'],
        out0.len() <= t2.len(),
        t2.subrange(0, out0.len() as int) == out0,
    ensures
        j2 == p + esc(t2.skip(out0.len() as int)).len() + 1,
        p < j2,
{
    let tr = t2.skip(out0.len() as int);
    assert(t2 =~= out0 + tr);
    lemma_esc_append(out0, tr);
    assert(esc(t2).len() == esc(out0).len() + esc(tr).len());
    assert(text.subrange(i, j2).len() == j2 - i);
    assert((esc(t2) + seq!['"']).len() == esc(t2).len() + 1);
    assert(text.subrange(i, p).len() == p - i);
}

/// Reads a quoted string's body starting after its opening quote, undoing
/// the canonical escapes, through its closing quote. The reading is exact:
/// it succeeds on precisely the texts that are the escape of some string
/// followed by a quote, and on those there is only one reading.
pub(crate) fn parse_json_string(s: &str, i: usize) -> (r: Option<(String, usize)>)
    requires
        i <= s@.len(),
    ensures
        match r {
            Some((t, j)) => {
                &&& i <= j <= s@.len()
                &&& s@.subrange(i as int, j as int) == esc(t@) + "\""@
                &&& forall|t2: Seq<char>, j2: int|
                    #![trigger esc(t2), s@.subrange(i as int, j2)]
                    i <= j2 <= s@.len() && s@.subrange(i as int, j2) == esc(t2) + "\""@ ==> j2 == j
                        && t2 == t@
            },
            None => forall|t2: Seq<char>, j2: int|
                #![trigger esc(t2), s@.subrange(i as int, j2)]
                i <= j2 <= s@.len() ==> s@.subrange(i as int, j2) != esc(t2) + "\""@,
        },
{
    proof {
        reveal_strlit("\"");
    }
    let n = s.unicode_len();
    let mut out = String::new();
    let mut p = i;
    proof {
        assert(s@.subrange(i as int, i as int) =~= Seq::<char>::empty());
        assert(esc(Seq::<char>::empty()) =~= Seq::<char>::empty());
        assert(s@.subrange(i as int, p as int) =~= esc(out@));
        assert forall|t2: Seq<char>, j2: int|
            #![trigger esc(t2), s@.subrange(i as int, j2)]
            i <= j2 <= n && s@.subrange(i as int, j2) == esc(t2) + "\""@ implies out@.len()
            <= t2.len() && t2.subrange(0, out@.len() as int) == out@ && s@.subrange(p as int, j2)
            == esc(t2.skip(out@.len() as int)) + seq!['"'] by {
            assert(t2.skip(0) =~= t2);
            assert(t2.subrange(0, 0) =~= out@);
            assert(esc(t2) + "\""@ =~= esc(t2) + seq!['"']);
        }
    }
    while p < n
        invariant
            i <= p <= n,
            n == s@.len(),
            s@.subrange(i as int, p as int) == esc(out@),
            forall|t2: Seq<char>, j2: int|
                #![trigger esc(t2), s@.subrange(i as int, j2)]
                i <= j2 <= n && s@.subrange(i as int, j2) == esc(t2) + "\""@ ==> out@.len()
                    <= t2.len() && t2.subrange(0, out@.len() as int) == out@ && s@.subrange(
                    p as int,
                    j2,
                ) == esc(t2.skip(out@.len() as int)) + seq!['"'],
        decreases n - p,
    {
        proof {
            reveal_strlit("\"");
            reveal_strlit("\\");
            reveal_strlit("\n");
            assert(("\"")@ =~= seq!['"']);
        }
        let c = s.get_char(p);
        if c == '"' {
            proof {
                assert(s@.subrange(i as int, p + 1) =~= s@.subrange(i as int, p as int) + seq![
                    '"',
                ]);
                assert(seq!['"'] =~= "\""@);
                assert forall|t2: Seq<char>, j2: int|
                    #![trigger esc(t2), s@.subrange(i as int, j2)]
                    i <= j2 <= s@.len() && s@.subrange(i as int, j2) == esc(t2) + "\""@ implies j2
                    == p + 1 && t2 == out@ by {
                    let tr = t2.skip(out@.len() as int);
                    lemma_match_position(s@, i as int, p as int, j2, out@, t2);
                    let piece = s@.subrange(p as int, j2);
                    assert(piece == esc(tr) + seq!['"']);
                    lemma_esc_match_head(tr, piece);
                    assert(piece[0] == s@[p as int]);
                    assert(tr.len() == 0);
                    assert(t2 =~= t2.subrange(0, out@.len() as int));
                }
            }
            return Some((out, p + 1));
        }
        let ghost out0 = out@;
        if c == '\\' {
            if p + 1 >= n {
                proof {
                    assert forall|t2: Seq<char>, j2: int|
                        #![trigger esc(t2), s@.subrange(i as int, j2)]
                        i <= j2 <= s@.len() implies s@.subrange(i as int, j2) != esc(t2)
                        + "\""@ by {
                        if s@.subrange(i as int, j2) == esc(t2) + "\""@ {
                            let tr = t2.skip(out@.len() as int);
                            lemma_match_position(s@, i as int, p as int, j2, out@, t2);
                            let piece = s@.subrange(p as int, j2);
                            lemma_esc_match_head(tr, piece);
                            assert(piece[0] == s@[p as int]);
                        }
                    }
                }
                return None;
            }
            let c2 = s.get_char(p + 1);
            let ghost pushed: char;
            if c2 == '\\' {
                out.append("\\");
                proof {
                    pushed = '\\';
                }
            } else if c2 == '"' {
                out.append("\"");
                proof {
                    pushed = '"';
                }
            } else if c2 == 'n' {
                out.append("\n");
                proof {
                    pushed = '\n';
                }
            } else {
                proof {
                    assert forall|t2: Seq<char>, j2: int|
                        #![trigger esc(t2), s@.subrange(i as int, j2)]
                        i <= j2 <= s@.len() implies s@.subrange(i as int, j2) != esc(t2)
                        + "\""@ by {
                        if s@.subrange(i as int, j2) == esc(t2) + "\""@ {
                            let tr = t2.skip(out@.len() as int);
                            lemma_match_position(s@, i as int, p as int, j2, out@, t2);
                            let piece = s@.subrange(p as int, j2);
                            lemma_esc_match_head(tr, piece);
                            assert(piece[0] == s@[p as int]);
                            assert(piece[1] == s@[p + 1]);
                        }
                    }
                }
                return None;
            }
            proof {
                assert(out@ =~= out0 + seq![pushed]);
                assert(needs_escape(pushed) && esc_code(pushed) == c2);
                lemma_esc_append(out0, seq![pushed]);
                lemma_esc_one(pushed);
                assert(esc_char(pushed) =~= seq![s@[p as int], s@[p + 1]]);
                assert(s@.subrange(i as int, p + 2) =~= s@.subrange(i as int, p as int) + seq![
                    s@[p as int],
                    s@[p + 1],
                ]);
                assert(s@.subrange(i as int, p + 2) =~= esc(out@));
                assert forall|t2: Seq<char>, j2: int|
                    #![trigger esc(t2), s@.subrange(i as int, j2)]
                    i <= j2 <= n && s@.subrange(i as int, j2) == esc(t2) + "\""@ implies out@.len()
                    <= t2.len() && t2.subrange(0, out@.len() as int) == out@ && s@.subrange(
                    p + 2,
                    j2,
                ) == esc(t2.skip(out@.len() as int)) + seq!['"'] by {
                    let tr = t2.skip(out0.len() as int);
                    lemma_match_position(s@, i as int, p as int, j2, out0, t2);
                    let piece = s@.subrange(p as int, j2);
                    lemma_esc_match_head(tr, piece);
                    assert(piece[0] == s@[p as int]);
                    assert(piece[1] == s@[p + 1]);
                    assert(needs_escape(tr[0]) && esc_code(tr[0]) == c2);
                    assert(tr[0] == pushed);
                    assert(tr[0] == t2[out0.len() as int]);
                    assert(t2.subrange(0, out@.len() as int) =~= t2.subrange(
                        0,
                        out0.len() as int,
                    ) + seq![tr[0]]);
                    assert(t2.skip(out@.len() as int) =~= tr.drop_first());
                    assert(piece.skip(2) =~= s@.subrange(p + 2, j2));
                }
            }
            p = p + 2;
        } else if c == '\n' {
            proof {
                assert forall|t2: Seq<char>, j2: int|
                    #![trigger esc(t2), s@.subrange(i as int, j2)]
                    i <= j2 <= s@.len() implies s@.subrange(i as int, j2) != esc(t2) + "\""@ by {
                    if s@.subrange(i as int, j2) == esc(t2) + "\""@ {
                        let tr = t2.skip(out@.len() as int);
                        lemma_match_position(s@, i as int, p as int, j2, out@, t2);
                        let piece = s@.subrange(p as int, j2);
                        lemma_esc_match_head(tr, piece);
                        assert(piece[0] == s@[p as int]);
                    }
                }
            }
            return None;
        } else {
            let piece_str = s.substring_char(p, p + 1);
            out.append(piece_str);
            proof {
                assert(piece_str@ =~= seq![c]);
                assert(out@ =~= out0 + seq![c]);
                lemma_esc_append(out0, seq![c]);
                lemma_esc_one(c);
                assert(esc_char(c) =~= seq![c]);
                assert(s@.subrange(i as int, p + 1) =~= s@.subrange(i as int, p as int) + seq![c]);
                assert(s@.subrange(i as int, p + 1) =~= esc(out@));
                assert forall|t2: Seq<char>, j2: int|
                    #![trigger esc(t2), s@.subrange(i as int, j2)]
                    i <= j2 <= n && s@.subrange(i as int, j2) == esc(t2) + "\""@ implies out@.len()
                    <= t2.len() && t2.subrange(0, out@.len() as int) == out@ && s@.subrange(
                    p + 1,
                    j2,
                ) == esc(t2.skip(out@.len() as int)) + seq!['"'] by {
                    let tr = t2.skip(out0.len() as int);
                    lemma_match_position(s@, i as int, p as int, j2, out0, t2);
                    let piece = s@.subrange(p as int, j2);
                    lemma_esc_match_head(tr, piece);
                    assert(piece[0] == s@[p as int]);
                    assert(tr[0] == c);
                    assert(tr[0] == t2[out0.len() as int]);
                    assert(t2.subrange(0, out@.len() as int) =~= t2.subrange(
                        0,
                        out0.len() as int,
                    ) + seq![tr[0]]);
                    assert(t2.skip(out@.len() as int) =~= tr.drop_first());
                    assert(piece.skip(1) =~= s@.subrange(p + 1, j2));
                }
            }
            p = p + 1;
        }
    }
    proof {
        reveal_strlit("\"");
        assert(("\"")@ =~= seq!['"']);
        assert forall|t2: Seq<char>, j2: int|
            #![trigger esc(t2), s@.subrange(i as int, j2)]
            i <= j2 <= s@.len() implies s@.subrange(i as int, j2) != esc(t2) + "\""@ by {
            if s@.subrange(i as int, j2) == esc(t2) + "\""@ {
                let tr = t2.skip(out@.len() as int);
                lemma_match_position(s@, i as int, p as int, j2, out@, t2);
                let piece = s@.subrange(p as int, j2);
                lemma_esc_match_head(tr, piece);
            }
        }
    }
    None
}

/// The decimal value of one digit character.
fn digit_val(c: char) -> (r: Option<u8>)
    ensures
        match r {
            Some(v) => is_digit(c) && v as int == hex_val(c) && v < 10,
            None => !is_digit(c),
        },
{
    let u = c as u32;
    if '0' as u32 <= u && u <= '9' as u32 {
        Some((u - '0' as u32) as u8)
    } else {
        None
    }
}

/// The nibble value of one strict lowercase hex character.
fn lower_hex_val(c: char) -> (r: Option<u8>)
    ensures
        match r {
            Some(v) => is_lower_hex(c) && v as int == hex_val(c) && v < 16,
            None => !is_lower_hex(c),
        },
{
    let u = c as u32;
    if '0' as u32 <= u && u <= '9' as u32 {
        Some((u - '0' as u32) as u8)
    } else if 'a' as u32 <= u && u <= 'f' as u32 {
        Some((u - 'a' as u32 + 10) as u8)
    } else {
        None
    }
}

/// Reads a canonical decimal number: digits without a leading zero, stopping
/// before the first non-digit; rejects a value that does not fit in 64 bits.
/// A refusal means no 64-bit value's digits stand there up to a non-digit.
pub(crate) fn parse_u64(s: &str, i: usize) -> (r: Option<(u64, usize)>)
    requires
        i <= s@.len(),
    ensures
        match r {
            Some((v, j)) => {
                &&& i < j <= s@.len()
                &&& s@.subrange(i as int, j as int) == dec(v as nat)
                &&& forall|v2: u64, j2: int|
                    #![trigger dec(v2 as nat), s@.subrange(i as int, j2)]
                    i <= j2 <= s@.len() && (j2 == s@.len() || !is_digit(s@[j2])) && s@.subrange(
                        i as int,
                        j2,
                    ) == dec(v2 as nat) ==> j2 == j && v2 == v
            },
            None => forall|v: u64, j: int|
                i <= j <= s@.len() && (j == s@.len() || !is_digit(s@[j]))
                    ==> s@.subrange(i as int, j) != dec(v as nat),
        },
{
    let n = s.unicode_len();
    if i >= n {
        proof {
            assert forall|v: u64, j: int|
                i <= j <= s@.len() && (j == s@.len() || !is_digit(s@[j])) implies s@.subrange(
                i as int,
                j,
            ) != dec(v as nat) by {
                lemma_dec_digits(v as nat);
            }
        }
        return None;
    }
    let c0 = s.get_char(i);
    let d0 = match digit_val(c0) {
        Some(d) => d,
        None => {
            proof {
                assert forall|v: u64, j: int|
                    i <= j <= s@.len() && (j == s@.len() || !is_digit(s@[j])) implies s@.subrange(
                    i as int,
                    j,
                ) != dec(v as nat) by {
                    lemma_dec_digits(v as nat);
                    if s@.subrange(i as int, j) == dec(v as nat) {
                        assert(s@.subrange(i as int, j)[0] == s@[i as int]);
                        assert(is_digit(dec(v as nat)[0]));
                    }
                }
            }
            return None;
        },
    };
    proof {
        lemma_lower_hex_inverse(c0);
        assert(s@.subrange(i as int, i + 1) =~= seq![c0]);
    }
    if d0 == 0 {
        proof {
            assert(s@.subrange(i as int, i + 1) =~= dec(0nat));
            assert forall|v2: u64, j2: int|
                #![trigger dec(v2 as nat), s@.subrange(i as int, j2)]
                i <= j2 <= s@.len() && (j2 == s@.len() || !is_digit(s@[j2])) && s@.subrange(
                    i as int,
                    j2,
                ) == dec(v2 as nat) implies j2 == i + 1 && v2 == 0 by {
                lemma_dec_digits(v2 as nat);
                lemma_dec_no_leading_zero(v2 as nat);
                assert(s@.subrange(i as int, j2)[0] == s@[i as int]);
                assert(dec(v2 as nat)[0] == '0');
                assert(v2 == 0);
                assert(dec(0nat) =~= seq!['0']);
            }
        }
        return Some((0, i + 1));
    }
    let mut v: u64 = d0 as u64;
    let mut p = i + 1;
    assert(s@.subrange(i as int, p as int) =~= dec(v as nat));
    while p < n
        invariant
            i < p <= n,
            n == s@.len(),
            1 <= v,
            s@.subrange(i as int, p as int) == dec(v as nat),
        decreases n - p,
    {
        let c = s.get_char(p);
        let d = match digit_val(c) {
            Some(d) => d,
            None => {
                proof {
                    lemma_dec_digits(v as nat);
                    assert forall|v2: u64, j2: int|
                        #![trigger dec(v2 as nat), s@.subrange(i as int, j2)]
                        i <= j2 <= s@.len() && (j2 == s@.len() || !is_digit(s@[j2]))
                            && s@.subrange(i as int, j2) == dec(v2 as nat) implies j2 == p && v2
                        == v by {
                        lemma_dec_digits(v2 as nat);
                        if j2 < p {
                            assert(s@[j2] == s@.subrange(i as int, p as int)[j2 - i]);
                            assert(is_digit(dec(v as nat)[j2 - i]));
                        } else if j2 > p {
                            assert(s@[p as int] == s@.subrange(i as int, j2)[p - i]);
                            assert(is_digit(dec(v2 as nat)[p - i]));
                        } else {
                            assert(dec(v2 as nat) =~= dec(v as nat));
                            lemma_dec_inj(v2 as nat, v as nat);
                        }
                    }
                }
                return Some((v, p));
            },
        };
        if v > (u64::MAX - d as u64) / 10 {
            proof {
                lemma_dec_digits(v as nat);
                lemma_lower_hex_inverse(c);
                assert forall|vh: u64, j: int|
                    i <= j <= s@.len() && (j == s@.len() || !is_digit(s@[j])) implies s@.subrange(
                    i as int,
                    j,
                ) != dec(vh as nat) by {
                    lemma_dec_digits(vh as nat);
                    if s@.subrange(i as int, j) == dec(vh as nat) {
                        if j <= p {
                            if j < p {
                                assert(s@.subrange(i as int, p as int)[j - i] == s@[j]);
                                assert(is_digit(dec(v as nat)[j - i]));
                            }
                        } else {
                            let dn = (hex_val(c)) as nat;
                            let grown = (v as nat) * 10 + dn;
                            let rest = s@.subrange(i as int, j).subrange(p + 1 - i, j - i);
                            lemma_dec_snoc(v as nat, dn);
                            assert(s@.subrange(i as int, (p + 1) as int) =~= s@.subrange(
                                i as int,
                                p as int,
                            ) + seq![c]);
                            assert(dec(vh as nat) =~= dec(grown) + rest);
                            lemma_dec_prefix_ge(vh as nat, grown, rest);
                            assert(grown > u64::MAX) by (nonlinear_arith)
                                requires
                                    v > (u64::MAX - d as u64) / 10,
                                    dn == d,
                                    0 <= d < 10,
                                    grown == (v as nat) * 10 + dn,
                            ;
                        }
                    }
                }
            }
            return None;
        }
        let ghost v0 = v;
        v = v * 10 + d as u64;
        proof {
            lemma_lower_hex_inverse(c);
            assert(v as nat / 10 == v0 as nat && v as nat % 10 == hex_val(c)) by (nonlinear_arith)
                requires
                    v == v0 * 10 + d,
                    d as int == hex_val(c),
                    0 <= d < 10,
                    1 <= v0,
            ;
            assert(dec(v as nat) == dec(v0 as nat) + seq![hex_digit(hex_val(c))]);
            assert(s@.subrange(i as int, p + 1) =~= s@.subrange(i as int, p as int) + seq![c]);
            assert(s@.subrange(i as int, p + 1) =~= dec(v as nat));
        }
        p = p + 1;
    }
    proof {
        lemma_dec_digits(v as nat);
        assert forall|v2: u64, j2: int|
            #![trigger dec(v2 as nat), s@.subrange(i as int, j2)]
            i <= j2 <= s@.len() && (j2 == s@.len() || !is_digit(s@[j2])) && s@.subrange(
                i as int,
                j2,
            ) == dec(v2 as nat) implies j2 == p && v2 == v by {
            lemma_dec_digits(v2 as nat);
            if j2 < p {
                assert(s@[j2] == s@.subrange(i as int, p as int)[j2 - i]);
                assert(is_digit(dec(v as nat)[j2 - i]));
            } else {
                assert(dec(v2 as nat) =~= dec(v as nat));
                lemma_dec_inj(v2 as nat, v as nat);
            }
        }
    }
    Some((v, p))
}

/// Reads exactly 64 lowercase hex characters as 32 bytes; a refusal means no
/// 32-byte value is written there in canonical lowercase hex.
fn parse_hex32(s: &str, i: usize) -> (r: Option<([u8; 32], usize)>)
    requires
        i <= s@.len(),
    ensures
        match r {
            Some((h, j)) => j == i + 64 && j <= s@.len() && s@.subrange(i as int, j as int)
                == hex_of(h@) && forall|h2: Seq<u8>|
                h2.len() == 32 && s@.subrange(i as int, i + 64) == hex_of(h2) ==> h2 == h@,
            None => forall|h: Seq<u8>|
                h.len() == 32 ==> !(i + 64 <= s@.len() && s@.subrange(i as int, i + 64) == hex_of(
                    h,
                )),
        },
{
    broadcast use vstd::array::group_array_axioms;

    let n = s.unicode_len();
    if i > n || n - i < 64 {
        return None;
    }
    let mut arr = [0u8; 32];
    let mut k: usize = 0;
    proof {
        assert(s@.subrange(i as int, i as int) =~= Seq::<char>::empty());
        assert(hex_of(Seq::<u8>::empty()) =~= Seq::<char>::empty());
        assert(arr@.subrange(0, 0) =~= Seq::<u8>::empty());
    }
    while k < 32
        invariant
            k <= 32,
            n == s@.len(),
            i + 64 <= n,
            arr@.len() == 32,
            s@.subrange(i as int, i + 2 * k) == hex_of(arr@.subrange(0, k as int)),
        decreases 32 - k,
    {
        let c0 = s.get_char(i + 2 * k);
        let c1 = s.get_char(i + 2 * k + 1);
        let d0 = lower_hex_val(c0);
        let d1 = lower_hex_val(c1);
        if d0.is_none() || d1.is_none() {
            proof {
                assert forall|h: Seq<u8>|
                    h.len() == 32 implies !(i + 64 <= s@.len() && s@.subrange(i as int, i + 64)
                    == hex_of(h)) by {
                    if i + 64 <= s@.len() && s@.subrange(i as int, i + 64) == hex_of(h) {
                        crate::hash::lemma_hex_of_index(h, k as int);
                        assert(s@.subrange(i as int, i + 64)[2 * k] == s@[i + 2 * k]);
                        assert(s@.subrange(i as int, i + 64)[2 * k + 1] == s@[i + 2 * k + 1]);
                        assert(is_lower_hex(hex_digit(h[k as int] as int / 16)));
                        assert(is_lower_hex(hex_digit(h[k as int] as int % 16)));
                    }
                }
            }
            return None;
        }
        let v0 = d0.unwrap();
        let v1 = d1.unwrap();
        let b = v0 * 16 + v1;
        let ghost pre = arr@.subrange(0, k as int);
        arr[k] = b;
        proof {
            lemma_lower_hex_inverse(c0);
            lemma_lower_hex_inverse(c1);
            assert(b as int / 16 == v0 && b as int % 16 == v1);
            assert(arr@.subrange(0, k + 1) =~= pre + seq![b]);
            lemma_hex_of_append(pre, seq![b]);
            assert(seq![b].drop_first() =~= Seq::<u8>::empty());
            assert(hex_of(Seq::<u8>::empty()) =~= Seq::<char>::empty());
            assert(hex_of(seq![b]) =~= seq![hex_digit(b as int / 16), hex_digit(b as int % 16)]);
            assert(hex_of(seq![b]) =~= seq![c0, c1]);
            assert(s@.subrange(i as int, i + 2 * (k + 1)) =~= s@.subrange(i as int, i + 2 * k)
                + seq![c0, c1]);
            assert(s@.subrange(i as int, i + 2 * (k + 1)) =~= hex_of(arr@.subrange(0, k + 1)));
        }
        k = k + 1;
    }
    proof {
        assert(arr@.subrange(0, 32) =~= arr@);
        assert forall|h2: Seq<u8>|
            h2.len() == 32 && s@.subrange(i as int, i + 64) == hex_of(h2) implies h2 == arr@ by {
            crate::hash::lemma_hex_of_inj(h2, arr@);
        }
    }
    Some((arr, i + 64))
}

/// How a serialized transaction decomposes: the position and content of
/// every field of `tx_json(tv)` when it stands at `[i, j2)` of the text.
proof fn lemma_tx_json_parts(text: Seq<char>, i: int, j2: int, tv: TxV)
    requires
        0 <= i <= j2 <= text.len(),
        text.subrange(i, j2) == tx_json(tv),
    ensures
        ({
            let q1 = i + "{\"from\":\""@.len();
            let q2 = q1 + esc(tv.from).len() + 1;
            let q3 = q2 + ",\"to\":\""@.len();
            let q4 = q3 + esc(tv.to).len() + 1;
            let q5 = q4 + ",\"value\":"@.len();
            let q6 = q5 + dec(tv.value as nat).len();
            let q7 = q6 + ",\"data\":\""@.len();
            let q8 = q7 + esc(tv.data).len() + 1;
            &&& j2 == q8 + 1
            &&& text.subrange(i, q1) == "{\"from\":\""@
            &&& text.subrange(q1, q2) == esc(tv.from) + "\""@
            &&& text.subrange(q2, q3) == ",\"to\":\""@
            &&& text.subrange(q3, q4) == esc(tv.to) + "\""@
            &&& text.subrange(q4, q5) == ",\"value\":"@
            &&& text.subrange(q5, q6) == dec(tv.value as nat)
            &&& text[q6] == ','
            &&& text.subrange(q6, q7) == ",\"data\":\""@
            &&& text.subrange(q7, q8) == esc(tv.data) + "\""@
            &&& text[q8] == '}'
            &&& text.subrange(q8, j2) == "}"@
        }),
{
    reveal_strlit("{\"from\":\"");
    reveal_strlit("\"");
    reveal_strlit(",\"to\":\"");
    reveal_strlit(",\"value\":");
    reveal_strlit(",\"data\":\"");
    reveal_strlit("}");
    lemma_dec_digits(tv.value as nat);
    let q1 = i + "{\"from\":\""@.len();
    let q2 = q1 + esc(tv.from).len() + 1;
    let q3 = q2 + ",\"to\":\""@.len();
    let q4 = q3 + esc(tv.to).len() + 1;
    let q5 = q4 + ",\"value\":"@.len();
    let q6 = q5 + dec(tv.value as nat).len();
    let q7 = q6 + ",\"data\":\""@.len();
    let q8 = q7 + esc(tv.data).len() + 1;
    assert(text.subrange(i, j2).len() == j2 - i);
    assert(j2 == q8 + 1);
    assert(text.subrange(i, q1) =~= text.subrange(i, j2).subrange(0, q1 - i));
    assert(tx_json(tv).subrange(0, q1 - i) =~= "{\"from\":\""@);
    assert(text.subrange(q1, q2) =~= text.subrange(i, j2).subrange(q1 - i, q2 - i));
    assert(tx_json(tv).subrange(q1 - i, q2 - i) =~= esc(tv.from) + "\""@);
    assert(text.subrange(q2, q3) =~= text.subrange(i, j2).subrange(q2 - i, q3 - i));
    assert(tx_json(tv).subrange(q2 - i, q3 - i) =~= ",\"to\":\""@);
    assert(text.subrange(q3, q4) =~= text.subrange(i, j2).subrange(q3 - i, q4 - i));
    assert(tx_json(tv).subrange(q3 - i, q4 - i) =~= esc(tv.to) + "\""@);
    assert(text.subrange(q4, q5) =~= text.subrange(i, j2).subrange(q4 - i, q5 - i));
    assert(tx_json(tv).subrange(q4 - i, q5 - i) =~= ",\"value\":"@);
    assert(text.subrange(q5, q6) =~= text.subrange(i, j2).subrange(q5 - i, q6 - i));
    assert(tx_json(tv).subrange(q5 - i, q6 - i) =~= dec(tv.value as nat));
    assert(text.subrange(q6, q7) =~= text.subrange(i, j2).subrange(q6 - i, q7 - i));
    assert(tx_json(tv).subrange(q6 - i, q7 - i) =~= ",\"data\":\""@);
    assert(text.subrange(q7, q8) =~= text.subrange(i, j2).subrange(q7 - i, q8 - i));
    assert(tx_json(tv).subrange(q7 - i, q8 - i) =~= esc(tv.data) + "\""@);
    assert(text.subrange(q8, j2) =~= text.subrange(i, j2).subrange(q8 - i, j2 - i));
    assert(tx_json(tv).subrange(q8 - i, j2 - i) =~= "}"@);
    assert(text[q6] == text.subrange(q6, q7)[0]);
    assert(text[q8] == text.subrange(q8, j2)[0]);
}

/// Reads one canonical serialized transaction. The reading is exact: it
/// succeeds on precisely the texts that serialize a transaction, and on
/// those it is the only reading.
#[verifier::rlimit(80)]
fn parse_tx(s: &str, i: usize) -> (r: Option<(Tx, usize)>)
    requires
        i <= s@.len(),
    ensures
        match r {
            Some((t, j)) => {
                &&& i < j <= s@.len()
                &&& s@.subrange(i as int, j as int) == tx_json(t@)
                &&& forall|tv: TxV, j2: int|
                    #![trigger tx_json(tv), s@.subrange(i as int, j2)]
                    i <= j2 <= s@.len() && s@.subrange(i as int, j2) == tx_json(tv) ==> j2 == j
                        && tv == t@
            },
            None => forall|tv: TxV, j2: int|
                #![trigger tx_json(tv), s@.subrange(i as int, j2)]
                i <= j2 <= s@.len() ==> s@.subrange(i as int, j2) != tx_json(tv),
        },
{
    proof {
        reveal_strlit("{\"from\":\"");
        reveal_strlit("\"");
        reveal_strlit(",\"to\":\"");
        reveal_strlit(",\"value\":");
        reveal_strlit(",\"data\":\"");
        reveal_strlit("}");
    }
    let p1 = match expect_lit(s, i, "{\"from\":\"") {
        Some(p) => p,
        None => {
            proof {
                assert forall|tv: TxV, j2: int|
                    #![trigger tx_json(tv), s@.subrange(i as int, j2)]
                    i <= j2 <= s@.len() implies s@.subrange(i as int, j2) != tx_json(tv) by {
                    if s@.subrange(i as int, j2) == tx_json(tv) {
                        lemma_tx_json_parts(s@, i as int, j2, tv);
                    }
                }
            }
            return None;
        },
    };
    let (from, p2) = match parse_json_string(s, p1) {
        Some(x) => x,
        None => {
            proof {
                assert forall|tv: TxV, j2: int|
                    #![trigger tx_json(tv), s@.subrange(i as int, j2)]
                    i <= j2 <= s@.len() implies s@.subrange(i as int, j2) != tx_json(tv) by {
                    if s@.subrange(i as int, j2) == tx_json(tv) {
                        lemma_tx_json_parts(s@, i as int, j2, tv);
                        let q2 = p1 + esc(tv.from).len() + 1;
                        assert(s@.subrange(p1 as int, q2) == esc(tv.from) + "\""@);
                    }
                }
            }
            return None;
        },
    };
    let p3 = match expect_lit(s, p2, ",\"to\":\"") {
        Some(p) => p,
        None => {
            proof {
                assert forall|tv: TxV, j2: int|
                    #![trigger tx_json(tv), s@.subrange(i as int, j2)]
                    i <= j2 <= s@.len() implies s@.subrange(i as int, j2) != tx_json(tv) by {
                    if s@.subrange(i as int, j2) == tx_json(tv) {
                        lemma_tx_json_parts(s@, i as int, j2, tv);
                        let q2 = p1 + esc(tv.from).len() + 1;
                        assert(s@.subrange(p1 as int, q2) == esc(tv.from) + "\""@);
                        assert(q2 == p2);
                        assert(s@.subrange(p2 as int, p2 + ",\"to\":\""@.len() as int)
                            == ",\"to\":\""@);
                    }
                }
            }
            return None;
        },
    };
    let (to, p4) = match parse_json_string(s, p3) {
        Some(x) => x,
        None => {
            proof {
                assert forall|tv: TxV, j2: int|
                    #![trigger tx_json(tv), s@.subrange(i as int, j2)]
                    i <= j2 <= s@.len() implies s@.subrange(i as int, j2) != tx_json(tv) by {
                    if s@.subrange(i as int, j2) == tx_json(tv) {
                        lemma_tx_json_parts(s@, i as int, j2, tv);
                        let q2 = p1 + esc(tv.from).len() + 1;
                        assert(s@.subrange(p1 as int, q2) == esc(tv.from) + "\""@);
                        assert(q2 == p2);
                        let q4 = p3 + esc(tv.to).len() + 1;
                        assert(s@.subrange(p3 as int, q4) == esc(tv.to) + "\""@);
                    }
                }
            }
            return None;
        },
    };
    let p5 = match expect_lit(s, p4, ",\"value\":") {
        Some(p) => p,
        None => {
            proof {
                assert forall|tv: TxV, j2: int|
                    #![trigger tx_json(tv), s@.subrange(i as int, j2)]
                    i <= j2 <= s@.len() implies s@.subrange(i as int, j2) != tx_json(tv) by {
                    if s@.subrange(i as int, j2) == tx_json(tv) {
                        lemma_tx_json_parts(s@, i as int, j2, tv);
                        let q2 = p1 + esc(tv.from).len() + 1;
                        assert(s@.subrange(p1 as int, q2) == esc(tv.from) + "\""@);
                        assert(q2 == p2);
                        let q4 = p3 + esc(tv.to).len() + 1;
                        assert(s@.subrange(p3 as int, q4) == esc(tv.to) + "\""@);
                        assert(q4 == p4);
                        assert(s@.subrange(p4 as int, p4 + ",\"value\":"@.len() as int)
                            == ",\"value\":"@);
                    }
                }
            }
            return None;
        },
    };
    let (value, p6) = match parse_u64(s, p5) {
        Some(x) => x,
        None => {
            proof {
                assert forall|tv: TxV, j2: int|
                    #![trigger tx_json(tv), s@.subrange(i as int, j2)]
                    i <= j2 <= s@.len() implies s@.subrange(i as int, j2) != tx_json(tv) by {
                    if s@.subrange(i as int, j2) == tx_json(tv) {
                        lemma_tx_json_parts(s@, i as int, j2, tv);
                        let q2 = p1 + esc(tv.from).len() + 1;
                        assert(s@.subrange(p1 as int, q2) == esc(tv.from) + "\""@);
                        assert(q2 == p2);
                        let q4 = p3 + esc(tv.to).len() + 1;
                        assert(s@.subrange(p3 as int, q4) == esc(tv.to) + "\""@);
                        assert(q4 == p4);
                        let q6 = p5 + dec(tv.value as nat).len();
                        assert(s@.subrange(p5 as int, q6) == dec(tv.value as nat));
                        assert(!is_digit(s@[q6]));
                    }
                }
            }
            return None;
        },
    };
    let p7 = match expect_lit(s, p6, ",\"data\":\"") {
        Some(p) => p,
        None => {
            proof {
                assert forall|tv: TxV, j2: int|
                    #![trigger tx_json(tv), s@.subrange(i as int, j2)]
                    i <= j2 <= s@.len() implies s@.subrange(i as int, j2) != tx_json(tv) by {
                    if s@.subrange(i as int, j2) == tx_json(tv) {
                        lemma_tx_json_parts(s@, i as int, j2, tv);
                        let q2 = p1 + esc(tv.from).len() + 1;
                        assert(s@.subrange(p1 as int, q2) == esc(tv.from) + "\""@);
                        assert(q2 == p2);
                        let q4 = p3 + esc(tv.to).len() + 1;
                        assert(s@.subrange(p3 as int, q4) == esc(tv.to) + "\""@);
                        assert(q4 == p4);
                        let q6 = p5 + dec(tv.value as nat).len();
                        assert(s@.subrange(p5 as int, q6) == dec(tv.value as nat));
                        assert(!is_digit(s@[q6]));
                        assert(q6 == p6 && tv.value == value);
                        assert(s@.subrange(p6 as int, p6 + ",\"data\":\""@.len() as int)
                            == ",\"data\":\""@);
                    }
                }
            }
            return None;
        },
    };
    let (data, p8) = match parse_json_string(s, p7) {
        Some(x) => x,
        None => {
            proof {
                assert forall|tv: TxV, j2: int|
                    #![trigger tx_json(tv), s@.subrange(i as int, j2)]
                    i <= j2 <= s@.len() implies s@.subrange(i as int, j2) != tx_json(tv) by {
                    if s@.subrange(i as int, j2) == tx_json(tv) {
                        lemma_tx_json_parts(s@, i as int, j2, tv);
                        let q2 = p1 + esc(tv.from).len() + 1;
                        assert(s@.subrange(p1 as int, q2) == esc(tv.from) + "\""@);
                        assert(q2 == p2);
                        let q4 = p3 + esc(tv.to).len() + 1;
                        assert(s@.subrange(p3 as int, q4) == esc(tv.to) + "\""@);
                        assert(q4 == p4);
                        let q6 = p5 + dec(tv.value as nat).len();
                        assert(s@.subrange(p5 as int, q6) == dec(tv.value as nat));
                        assert(!is_digit(s@[q6]));
                        assert(q6 == p6 && tv.value == value);
                        let q8 = p7 + esc(tv.data).len() + 1;
                        assert(s@.subrange(p7 as int, q8) == esc(tv.data) + "\""@);
                    }
                }
            }
            return None;
        },
    };
    let p9 = match expect_lit(s, p8, "}") {
        Some(p) => p,
        None => {
            proof {
                assert forall|tv: TxV, j2: int|
                    #![trigger tx_json(tv), s@.subrange(i as int, j2)]
                    i <= j2 <= s@.len() implies s@.subrange(i as int, j2) != tx_json(tv) by {
                    if s@.subrange(i as int, j2) == tx_json(tv) {
                        lemma_tx_json_parts(s@, i as int, j2, tv);
                        let q2 = p1 + esc(tv.from).len() + 1;
                        assert(s@.subrange(p1 as int, q2) == esc(tv.from) + "\""@);
                        assert(q2 == p2);
                        let q4 = p3 + esc(tv.to).len() + 1;
                        assert(s@.subrange(p3 as int, q4) == esc(tv.to) + "\""@);
                        assert(q4 == p4);
                        let q6 = p5 + dec(tv.value as nat).len();
                        assert(s@.subrange(p5 as int, q6) == dec(tv.value as nat));
                        assert(!is_digit(s@[q6]));
                        assert(q6 == p6 && tv.value == value);
                        let q8 = p7 + esc(tv.data).len() + 1;
                        assert(s@.subrange(p7 as int, q8) == esc(tv.data) + "\""@);
                        assert(q8 == p8);
                        assert(s@.subrange(p8 as int, p8 + 1) == "}"@);
                    }
                }
            }
            return None;
        },
    };
    let t = Tx { from: Account(from), to: Account(to), value, data };
    proof {
        assert(("{\"from\":\"")@.len() > 0);
        assert(s@.subrange(i as int, p9 as int) =~= s@.subrange(i as int, p1 as int) + s@.subrange(
            p1 as int,
            p2 as int,
        ) + s@.subrange(p2 as int, p3 as int) + s@.subrange(p3 as int, p4 as int) + s@.subrange(
            p4 as int,
            p5 as int,
        ) + s@.subrange(p5 as int, p6 as int) + s@.subrange(p6 as int, p7 as int) + s@.subrange(
            p7 as int,
            p8 as int,
        ) + s@.subrange(p8 as int, p9 as int));
        assert(s@.subrange(i as int, p9 as int) =~= tx_json(t@));
        assert forall|tv: TxV, j2: int|
            #![trigger tx_json(tv), s@.subrange(i as int, j2)]
            i <= j2 <= s@.len() && s@.subrange(i as int, j2) == tx_json(tv) implies j2 == p9 && tv
            == t@ by {
            lemma_tx_json_parts(s@, i as int, j2, tv);
            let q2 = p1 + esc(tv.from).len() + 1;
            assert(s@.subrange(p1 as int, q2) == esc(tv.from) + "\""@);
            assert(q2 == p2 && tv.from == from@);
            let q4 = p3 + esc(tv.to).len() + 1;
            assert(s@.subrange(p3 as int, q4) == esc(tv.to) + "\""@);
            assert(q4 == p4 && tv.to == to@);
            let q6 = p5 + dec(tv.value as nat).len();
            assert(s@.subrange(p5 as int, q6) == dec(tv.value as nat));
            assert(!is_digit(s@[q6]));
            assert(q6 == p6 && tv.value == value);
            let q8 = p7 + esc(tv.data).len() + 1;
            assert(s@.subrange(p7 as int, q8) == esc(tv.data) + "\""@);
            assert(q8 == p8 && tv.data == data@);
        }
    }
    Some((t, p9))
}

/// How a serialized transaction list decomposes at its head: a bracket ends
/// it; otherwise its first transaction stands first, followed by a comma and
/// the rest, or directly by the bracket.
proof fn lemma_txs_match_step(text: Seq<char>, pos: int, j2: int, tr: Seq<TxV>)
    requires
        0 <= pos <= j2 <= text.len(),
        text.subrange(pos, j2) == txs_json(tr) + "]"@,
        tr.len() > 0,
    ensures
        ({
            let ell = tx_json(tr[0]).len() as int;
            &&& pos + ell < j2
            &&& text[pos] == '{'
            &&& text.subrange(pos, pos + ell) == tx_json(tr[0])
            &&& (tr.len() == 1 ==> text[pos + ell] == ']' && j2 == pos + ell + 1)
            &&& (tr.len() > 1 ==> text[pos + ell] == ',' && pos + ell + 1 <= j2 && text.subrange(
                pos + ell + 1,
                j2,
            ) == txs_json(tr.drop_first()) + "]"@)
        }),
{
    reveal_strlit("{\"from\":\"");
    reveal_strlit("]");
    reveal_strlit(",");
    let ell = tx_json(tr[0]).len() as int;
    assert(text.subrange(pos, j2).len() == j2 - pos);
    if tr.len() == 1 {
        assert(txs_json(tr) == tx_json(tr[0]));
        assert(j2 == pos + ell + 1);
        assert(text.subrange(pos, pos + ell) =~= text.subrange(pos, j2).subrange(0, ell));
        assert((txs_json(tr) + "]"@).subrange(0, ell) =~= tx_json(tr[0]));
        assert(text[pos + ell] == text.subrange(pos, j2)[ell]);
        assert((txs_json(tr) + "]"@)[ell] == ']');
    } else {
        assert(txs_json(tr) == tx_json(tr[0]) + ","@ + txs_json(tr.drop_first()));
        assert(text.subrange(pos, pos + ell) =~= text.subrange(pos, j2).subrange(0, ell));
        assert((txs_json(tr) + "]"@).subrange(0, ell) =~= tx_json(tr[0]));
        assert(text[pos + ell] == text.subrange(pos, j2)[ell]);
        assert((txs_json(tr) + "]"@)[ell] == ","@[0]);
        assert(text.subrange(pos + ell + 1, j2) =~= text.subrange(pos, j2).subrange(
            ell + 1,
            j2 - pos,
        ));
        assert((txs_json(tr) + "]"@).subrange(ell + 1, j2 - pos) =~= txs_json(tr.drop_first())
            + "]"@);
    }
    assert(text[pos] == text.subrange(pos, j2)[0]);
    assert((txs_json(tr) + "]"@)[0] == tx_json(tr[0])[0]);
    assert(tx_json(tr[0])[0] == "{\"from\":\""@[0]);
}

/// Reads the comma-separated transaction list together with its closing
/// bracket. The reading is exact: it succeeds on precisely the texts of the
/// form "list, then bracket", and on those it is the only reading.
#[verifier::rlimit(80)]
fn parse_txs(s: &str, i: usize) -> (r: Option<(Vec<Tx>, usize)>)
    requires
        i <= s@.len(),
    ensures
        match r {
            Some((ts, j)) => {
                &&& i < j <= s@.len()
                &&& s@.subrange(i as int, j as int) == txs_json(crate::block::txs_view(ts@))
                    + "]"@
                &&& forall|ts2: Seq<TxV>, j2: int|
                    #![trigger txs_json(ts2), s@.subrange(i as int, j2)]
                    i <= j2 <= s@.len() && s@.subrange(i as int, j2) == txs_json(ts2) + "]"@
                        ==> j2 == j && ts2 == crate::block::txs_view(ts@)
            },
            None => forall|ts2: Seq<TxV>, j2: int|
                #![trigger txs_json(ts2), s@.subrange(i as int, j2)]
                i <= j2 <= s@.len() ==> s@.subrange(i as int, j2) != txs_json(ts2) + "]"@,
        },
{
    proof {
        reveal_strlit("]");
        reveal_strlit(",");
    }
    let mut txs: Vec<Tx> = Vec::new();
    match expect_lit(s, i, "]") {
        Some(j) => {
            proof {
                assert(crate::block::txs_view(txs@) =~= Seq::<TxV>::empty());
                assert(txs_json(Seq::<TxV>::empty()) =~= Seq::<char>::empty());
                assert(s@.subrange(i as int, j as int) =~= txs_json(crate::block::txs_view(txs@))
                    + "]"@);
                assert forall|ts2: Seq<TxV>, j2: int|
                    #![trigger txs_json(ts2), s@.subrange(i as int, j2)]
                    i <= j2 <= s@.len() && s@.subrange(i as int, j2) == txs_json(ts2) + "]"@
                    implies j2 == j && ts2 == crate::block::txs_view(txs@) by {
                    if ts2.len() > 0 {
                        lemma_txs_match_step(s@, i as int, j2, ts2);
                        assert(s@[i as int] == '{');
                        assert(s@[i as int] == s@.subrange(i as int, j as int)[0]);
                    } else {
                        assert(txs_json(ts2) + "]"@ =~= "]"@);
                        assert(s@.subrange(i as int, j2).len() == j2 - i);
                        assert(ts2 =~= crate::block::txs_view(txs@));
                    }
                }
            }
            return Some((txs, j));
        },
        None => {},
    }
    let mut pos = i;
    let n = s.unicode_len();
    proof {
        assert forall|ts2: Seq<TxV>, j2: int|
            #![trigger txs_json(ts2), s@.subrange(i as int, j2)]
            i <= j2 <= n && s@.subrange(i as int, j2) == txs_json(ts2) + "]"@ implies ts2.len()
            > txs@.len() && ts2.subrange(0, txs@.len() as int) == crate::block::txs_view(txs@)
            && pos as int <= j2 && s@.subrange(pos as int, j2) == txs_json(
                ts2.skip(txs@.len() as int),
            ) + "]"@ by {
            if ts2.len() == 0 {
                assert(txs_json(ts2) + "]"@ =~= "]"@);
                assert(s@.subrange(i as int, j2).len() == j2 - i);
                assert(s@[i as int] == s@.subrange(i as int, j2)[0]);
            }
            assert(ts2.subrange(0, 0) =~= crate::block::txs_view(txs@));
            assert(ts2.skip(0) =~= ts2);
        }
    }
    loop
        invariant
            i <= pos <= n,
            n == s@.len(),
            txs@.len() == 0 ==> pos == i,
            txs@.len() > 0 ==> s@.subrange(i as int, pos as int) == txs_json(
                crate::block::txs_view(txs@),
            ) + ","@,
            forall|ts2: Seq<TxV>, j2: int|
                #![trigger txs_json(ts2), s@.subrange(i as int, j2)]
                i <= j2 <= n && s@.subrange(i as int, j2) == txs_json(ts2) + "]"@ ==> ts2.len()
                    > txs@.len() && ts2.subrange(0, txs@.len() as int) == crate::block::txs_view(
                    txs@,
                ) && pos as int <= j2 && s@.subrange(pos as int, j2) == txs_json(
                    ts2.skip(txs@.len() as int),
                ) + "]"@,
        decreases n - pos,
    {
        proof {
            reveal_strlit("]");
            reveal_strlit(",");
        }
        let ghost txs0 = crate::block::txs_view(txs@);
        let ghost m = txs@.len() as int;
        let (t, p2) = match parse_tx(s, pos) {
            Some(x) => x,
            None => {
                proof {
                    assert forall|ts2: Seq<TxV>, j2: int|
                        #![trigger txs_json(ts2), s@.subrange(i as int, j2)]
                        i <= j2 <= s@.len() implies s@.subrange(i as int, j2) != txs_json(ts2)
                        + "]"@ by {
                        if s@.subrange(i as int, j2) == txs_json(ts2) + "]"@ {
                            let tr = ts2.skip(m);
                            lemma_txs_match_step(s@, pos as int, j2, tr);
                            assert(s@.subrange(pos as int, pos + tx_json(tr[0]).len()) == tx_json(
                                tr[0],
                            ));
                        }
                    }
                }
                return None;
            },
        };
        txs.push(t);
        proof {
            assert(crate::block::txs_view(txs@) =~= txs0.push(t@));
            lemma_txs_json_snoc(txs0, t@);
            assert(s@.subrange(i as int, p2 as int) =~= s@.subrange(i as int, pos as int)
                + s@.subrange(pos as int, p2 as int));
            assert(s@.subrange(i as int, p2 as int) =~= txs_json(crate::block::txs_view(txs@)));
        }
        match expect_lit(s, p2, "]") {
            Some(p3) => {
                proof {
                    assert(s@.subrange(i as int, p3 as int) =~= s@.subrange(i as int, p2 as int)
                        + s@.subrange(p2 as int, p3 as int));
                    assert(s@.subrange(i as int, p3 as int) =~= txs_json(
                        crate::block::txs_view(txs@),
                    ) + "]"@);
                    assert forall|ts2: Seq<TxV>, j2: int|
                        #![trigger txs_json(ts2), s@.subrange(i as int, j2)]
                        i <= j2 <= s@.len() && s@.subrange(i as int, j2) == txs_json(ts2) + "]"@
                        implies j2 == p3 && ts2 == crate::block::txs_view(txs@) by {
                        let tr = ts2.skip(m);
                        lemma_txs_match_step(s@, pos as int, j2, tr);
                        let ell = tx_json(tr[0]).len() as int;
                        assert(s@.subrange(pos as int, pos + ell) == tx_json(tr[0]));
                        assert(pos + ell == p2 && tr[0] == t@);
                        if tr.len() > 1 {
                            assert(s@[p2 as int] == ',');
                            assert(s@[p2 as int] == s@.subrange(p2 as int, p3 as int)[0]);
                        }
                        assert(tr.len() == 1);
                        assert(j2 == p2 + 1);
                        assert(ts2 =~= crate::block::txs_view(txs@));
                    }
                }
                return Some((txs, p3));
            },
            None => {},
        }
        let p4 = match expect_lit(s, p2, ",") {
            Some(p) => p,
            None => {
                proof {
                    assert forall|ts2: Seq<TxV>, j2: int|
                        #![trigger txs_json(ts2), s@.subrange(i as int, j2)]
                        i <= j2 <= s@.len() implies s@.subrange(i as int, j2) != txs_json(ts2)
                        + "]"@ by {
                        if s@.subrange(i as int, j2) == txs_json(ts2) + "]"@ {
                            let tr = ts2.skip(m);
                            lemma_txs_match_step(s@, pos as int, j2, tr);
                            let ell = tx_json(tr[0]).len() as int;
                            assert(s@.subrange(pos as int, pos + ell) == tx_json(tr[0]));
                            assert(pos + ell == p2 && tr[0] == t@);
                            if tr.len() == 1 {
                                assert(s@[p2 as int] == ']');
                                assert(s@.subrange(p2 as int, p2 + 1) =~= "]"@);
                            } else {
                                assert(s@[p2 as int] == ',');
                                assert(s@.subrange(p2 as int, p2 + 1) =~= ","@);
                            }
                        }
                    }
                }
                return None;
            },
        };
        proof {
            assert(s@.subrange(i as int, p4 as int) =~= s@.subrange(i as int, p2 as int)
                + s@.subrange(p2 as int, p4 as int));
            assert(s@.subrange(i as int, p4 as int) =~= txs_json(crate::block::txs_view(txs@))
                + ","@);
            assert forall|ts2: Seq<TxV>, j2: int|
                #![trigger txs_json(ts2), s@.subrange(i as int, j2)]
                i <= j2 <= n && s@.subrange(i as int, j2) == txs_json(ts2) + "]"@ implies
                ts2.len() > txs@.len() && ts2.subrange(0, txs@.len() as int)
                == crate::block::txs_view(txs@) && p4 as int <= j2 && s@.subrange(p4 as int, j2)
                == txs_json(ts2.skip(txs@.len() as int)) + "]"@ by {
                let tr = ts2.skip(m);
                lemma_txs_match_step(s@, pos as int, j2, tr);
                let ell = tx_json(tr[0]).len() as int;
                assert(s@.subrange(pos as int, pos + ell) == tx_json(tr[0]));
                assert(pos + ell == p2 && tr[0] == t@);
                if tr.len() == 1 {
                    assert(s@[p2 as int] == ']');
                    assert(s@[p2 as int] == s@.subrange(p2 as int, p4 as int)[0]);
                }
                assert(tr.len() > 1);
                assert(ts2.len() > txs@.len());
                assert(tr[0] == ts2[m]);
                assert(ts2.subrange(0, txs@.len() as int) =~= ts2.subrange(0, m) + seq![ts2[m]]);
                assert(ts2.subrange(0, txs@.len() as int) =~= crate::block::txs_view(txs@));
                assert(ts2.skip(txs@.len() as int) =~= tr.drop_first());
                assert(s@.subrange(p4 as int, j2) == txs_json(tr.drop_first()) + "]"@);
            }
        }
        pos = p4;
    }
}

/// How a serialized header decomposes: the position and content of every
/// field of `header_json(hv)` when it stands at `[i, j2)` of the text.
proof fn lemma_header_json_parts(text: Seq<char>, i: int, j2: int, hv: HeaderV)
    requires
        0 <= i <= j2 <= text.len(),
        hv.wf(),
        text.subrange(i, j2) == header_json(hv),
    ensures
        ({
            let q1 = i + "{\"parent\":\""@.len();
            let q2 = q1 + 64;
            let q3 = q2 + 1;
            let q4 = q3 + ",\"height\":"@.len();
            let q5 = q4 + dec(hv.height as nat).len();
            let q6 = q5 + ",\"time\":"@.len();
            let q7 = q6 + dec(hv.time as nat).len();
            &&& j2 == q7 + 1
            &&& text.subrange(i, q1) == "{\"parent\":\""@
            &&& text.subrange(q1, q2) == hex_of(hv.parent)
            &&& text.subrange(q2, q3) == "\""@
            &&& text.subrange(q3, q4) == ",\"height\":"@
            &&& text.subrange(q4, q5) == dec(hv.height as nat)
            &&& text[q5] == ','
            &&& text.subrange(q5, q6) == ",\"time\":"@
            &&& text.subrange(q6, q7) == dec(hv.time as nat)
            &&& text[q7] == '}'
            &&& text.subrange(q7, j2) == "}"@
        }),
{
    reveal_strlit("{\"parent\":\"");
    reveal_strlit("\"");
    reveal_strlit(",\"height\":");
    reveal_strlit(",\"time\":");
    reveal_strlit("}");
    crate::hash::lemma_hex_of_len(hv.parent);
    lemma_dec_digits(hv.height as nat);
    lemma_dec_digits(hv.time as nat);
    let q1 = i + "{\"parent\":\""@.len();
    let q2 = q1 + 64;
    let q3 = q2 + 1;
    let q4 = q3 + ",\"height\":"@.len();
    let q5 = q4 + dec(hv.height as nat).len();
    let q6 = q5 + ",\"time\":"@.len();
    let q7 = q6 + dec(hv.time as nat).len();
    assert(text.subrange(i, j2).len() == j2 - i);
    assert(hex_of(hv.parent).len() == 64);
    assert(j2 == q7 + 1);
    assert(text.subrange(i, q1) =~= text.subrange(i, j2).subrange(0, q1 - i));
    assert(header_json(hv).subrange(0, q1 - i) =~= "{\"parent\":\""@);
    assert(text.subrange(q1, q2) =~= text.subrange(i, j2).subrange(q1 - i, q2 - i));
    assert(header_json(hv).subrange(q1 - i, q2 - i) =~= hex_of(hv.parent));
    assert(text.subrange(q2, q3) =~= text.subrange(i, j2).subrange(q2 - i, q3 - i));
    assert(header_json(hv).subrange(q2 - i, q3 - i) =~= "\""@);
    assert(text.subrange(q3, q4) =~= text.subrange(i, j2).subrange(q3 - i, q4 - i));
    assert(header_json(hv).subrange(q3 - i, q4 - i) =~= ",\"height\":"@);
    assert(text.subrange(q4, q5) =~= text.subrange(i, j2).subrange(q4 - i, q5 - i));
    assert(header_json(hv).subrange(q4 - i, q5 - i) =~= dec(hv.height as nat));
    assert(text.subrange(q5, q6) =~= text.subrange(i, j2).subrange(q5 - i, q6 - i));
    assert(header_json(hv).subrange(q5 - i, q6 - i) =~= ",\"time\":"@);
    assert(text.subrange(q6, q7) =~= text.subrange(i, j2).subrange(q6 - i, q7 - i));
    assert(header_json(hv).subrange(q6 - i, q7 - i) =~= dec(hv.time as nat));
    assert(text.subrange(q7, j2) =~= text.subrange(i, j2).subrange(q7 - i, j2 - i));
    assert(header_json(hv).subrange(q7 - i, j2 - i) =~= "}"@);
    assert(text[q5] == text.subrange(q5, q6)[0]);
    assert(text[q7] == text.subrange(q7, j2)[0]);
}

/// Reads one canonical serialized header. The reading is exact: it succeeds
/// on precisely the texts that serialize a well-formed header, and on those
/// it is the only reading.
fn parse_header(s: &str, i: usize) -> (r: Option<(BlockHeader, usize)>)
    requires
        i <= s@.len(),
    ensures
        match r {
            Some((h, j)) => {
                &&& i < j <= s@.len()
                &&& s@.subrange(i as int, j as int) == header_json(h@)
                &&& forall|hv: HeaderV, j2: int|
                    #![trigger header_json(hv), s@.subrange(i as int, j2)]
                    i <= j2 <= s@.len() && hv.wf() && s@.subrange(i as int, j2) == header_json(hv)
                        ==> j2 == j && hv == h@
            },
            None => forall|hv: HeaderV, j2: int|
                #![trigger header_json(hv), s@.subrange(i as int, j2)]
                i <= j2 <= s@.len() && hv.wf() ==> s@.subrange(i as int, j2) != header_json(hv),
        },
{
    proof {
        reveal_strlit("{\"parent\":\"");
        reveal_strlit("\"");
        reveal_strlit(",\"height\":");
        reveal_strlit(",\"time\":");
        reveal_strlit("}");
    }
    let p1 = match expect_lit(s, i, "{\"parent\":\"") {
        Some(p) => p,
        None => {
            proof {
                assert forall|hv: HeaderV, j2: int|
                    #![trigger header_json(hv), s@.subrange(i as int, j2)]
                    i <= j2 <= s@.len() && hv.wf() implies s@.subrange(i as int, j2)
                    != header_json(hv) by {
                    if s@.subrange(i as int, j2) == header_json(hv) {
                        lemma_header_json_parts(s@, i as int, j2, hv);
                    }
                }
            }
            return None;
        },
    };
    let (parent, p2) = match parse_hex32(s, p1) {
        Some(x) => x,
        None => {
            proof {
                assert forall|hv: HeaderV, j2: int|
                    #![trigger header_json(hv), s@.subrange(i as int, j2)]
                    i <= j2 <= s@.len() && hv.wf() implies s@.subrange(i as int, j2)
                    != header_json(hv) by {
                    if s@.subrange(i as int, j2) == header_json(hv) {
                        lemma_header_json_parts(s@, i as int, j2, hv);
                        assert(s@.subrange(p1 as int, p1 + 64) == hex_of(hv.parent));
                    }
                }
            }
            return None;
        },
    };
    let p3 = match expect_lit(s, p2, "\"") {
        Some(p) => p,
        None => {
            proof {
                assert forall|hv: HeaderV, j2: int|
                    #![trigger header_json(hv), s@.subrange(i as int, j2)]
                    i <= j2 <= s@.len() && hv.wf() implies s@.subrange(i as int, j2)
                    != header_json(hv) by {
                    if s@.subrange(i as int, j2) == header_json(hv) {
                        lemma_header_json_parts(s@, i as int, j2, hv);
                        assert(s@.subrange(p2 as int, p2 + 1) == "\""@);
                    }
                }
            }
            return None;
        },
    };
    let p4 = match expect_lit(s, p3, ",\"height\":") {
        Some(p) => p,
        None => {
            proof {
                assert forall|hv: HeaderV, j2: int|
                    #![trigger header_json(hv), s@.subrange(i as int, j2)]
                    i <= j2 <= s@.len() && hv.wf() implies s@.subrange(i as int, j2)
                    != header_json(hv) by {
                    if s@.subrange(i as int, j2) == header_json(hv) {
                        lemma_header_json_parts(s@, i as int, j2, hv);
                        assert(s@.subrange(p3 as int, p3 + ",\"height\":"@.len() as int)
                            == ",\"height\":"@);
                    }
                }
            }
            return None;
        },
    };
    let (height, p5) = match parse_u64(s, p4) {
        Some(x) => x,
        None => {
            proof {
                assert forall|hv: HeaderV, j2: int|
                    #![trigger header_json(hv), s@.subrange(i as int, j2)]
                    i <= j2 <= s@.len() && hv.wf() implies s@.subrange(i as int, j2)
                    != header_json(hv) by {
                    if s@.subrange(i as int, j2) == header_json(hv) {
                        lemma_header_json_parts(s@, i as int, j2, hv);
                        let q5 = p4 + dec(hv.height as nat).len();
                        assert(s@.subrange(p4 as int, q5) == dec(hv.height as nat));
                        assert(!is_digit(s@[q5]));
                    }
                }
            }
            return None;
        },
    };
    let p6 = match expect_lit(s, p5, ",\"time\":") {
        Some(p) => p,
        None => {
            proof {
                assert forall|hv: HeaderV, j2: int|
                    #![trigger header_json(hv), s@.subrange(i as int, j2)]
                    i <= j2 <= s@.len() && hv.wf() implies s@.subrange(i as int, j2)
                    != header_json(hv) by {
                    if s@.subrange(i as int, j2) == header_json(hv) {
                        lemma_header_json_parts(s@, i as int, j2, hv);
                        let q5 = p4 + dec(hv.height as nat).len();
                        assert(s@.subrange(p4 as int, q5) == dec(hv.height as nat));
                        assert(!is_digit(s@[q5]));
                        assert(q5 == p5 && hv.height == height);
                        assert(s@.subrange(p5 as int, p5 + ",\"time\":"@.len() as int)
                            == ",\"time\":"@);
                    }
                }
            }
            return None;
        },
    };
    let (time, p7) = match parse_u64(s, p6) {
        Some(x) => x,
        None => {
            proof {
                assert forall|hv: HeaderV, j2: int|
                    #![trigger header_json(hv), s@.subrange(i as int, j2)]
                    i <= j2 <= s@.len() && hv.wf() implies s@.subrange(i as int, j2)
                    != header_json(hv) by {
                    if s@.subrange(i as int, j2) == header_json(hv) {
                        lemma_header_json_parts(s@, i as int, j2, hv);
                        let q5 = p4 + dec(hv.height as nat).len();
                        assert(s@.subrange(p4 as int, q5) == dec(hv.height as nat));
                        assert(!is_digit(s@[q5]));
                        assert(q5 == p5 && hv.height == height);
                        let q7 = p6 + dec(hv.time as nat).len();
                        assert(s@.subrange(p6 as int, q7) == dec(hv.time as nat));
                        assert(!is_digit(s@[q7]));
                    }
                }
            }
            return None;
        },
    };
    let p8 = match expect_lit(s, p7, "}") {
        Some(p) => p,
        None => {
            proof {
                assert forall|hv: HeaderV, j2: int|
                    #![trigger header_json(hv), s@.subrange(i as int, j2)]
                    i <= j2 <= s@.len() && hv.wf() implies s@.subrange(i as int, j2)
                    != header_json(hv) by {
                    if s@.subrange(i as int, j2) == header_json(hv) {
                        lemma_header_json_parts(s@, i as int, j2, hv);
                        let q5 = p4 + dec(hv.height as nat).len();
                        assert(s@.subrange(p4 as int, q5) == dec(hv.height as nat));
                        assert(!is_digit(s@[q5]));
                        assert(q5 == p5 && hv.height == height);
                        let q7 = p6 + dec(hv.time as nat).len();
                        assert(s@.subrange(p6 as int, q7) == dec(hv.time as nat));
                        assert(!is_digit(s@[q7]));
                        assert(q7 == p7 && hv.time == time);
                        assert(s@.subrange(p7 as int, p7 + 1) == "}"@);
                    }
                }
            }
            return None;
        },
    };
    let h = BlockHeader { parent: crate::hash::Hash(parent), height, time };
    proof {
        assert(("{\"parent\":\"")@.len() > 0);
        assert(s@.subrange(i as int, p8 as int) =~= s@.subrange(i as int, p1 as int) + s@.subrange(
            p1 as int,
            p2 as int,
        ) + s@.subrange(p2 as int, p3 as int) + s@.subrange(p3 as int, p4 as int) + s@.subrange(
            p4 as int,
            p5 as int,
        ) + s@.subrange(p5 as int, p6 as int) + s@.subrange(p6 as int, p7 as int) + s@.subrange(
            p7 as int,
            p8 as int,
        ));
        assert(s@.subrange(i as int, p8 as int) =~= header_json(h@));
        assert forall|hv: HeaderV, j2: int|
            #![trigger header_json(hv), s@.subrange(i as int, j2)]
            i <= j2 <= s@.len() && hv.wf() && s@.subrange(i as int, j2) == header_json(hv) implies
            j2 == p8 && hv == h@ by {
            lemma_header_json_parts(s@, i as int, j2, hv);
            assert(s@.subrange(p1 as int, p1 + 64) == hex_of(hv.parent));
            assert(hv.parent == parent@);
            let q5 = p4 + dec(hv.height as nat).len();
            assert(s@.subrange(p4 as int, q5) == dec(hv.height as nat));
            assert(!is_digit(s@[q5]));
            assert(q5 == p5 && hv.height == height);
            let q7 = p6 + dec(hv.time as nat).len();
            assert(s@.subrange(p6 as int, q7) == dec(hv.time as nat));
            assert(!is_digit(s@[q7]));
            assert(q7 == p7 && hv.time == time);
        }
    }
    Some((h, p8))
}

/// How a serialized block decomposes when it stands at `[i, j2)` of the text.
proof fn lemma_block_json_parts(text: Seq<char>, i: int, j2: int, bv: BlockV)
    requires
        0 <= i <= j2 <= text.len(),
        text.subrange(i, j2) == block_json(bv),
    ensures
        ({
            let q1 = i + "{\"header\":"@.len();
            let q2 = q1 + header_json(bv.header).len();
            let q3 = q2 + ",\"payload\":["@.len();
            let q4 = q3 + txs_json(bv.txs).len() + 1;
            &&& j2 == q4 + 1
            &&& text.subrange(i, q1) == "{\"header\":"@
            &&& text.subrange(q1, q2) == header_json(bv.header)
            &&& text.subrange(q2, q3) == ",\"payload\":["@
            &&& text.subrange(q3, q4) == txs_json(bv.txs) + "]"@
            &&& text.subrange(q4, j2) == "}"@
        }),
{
    reveal_strlit("{\"header\":");
    reveal_strlit(",\"payload\":[");
    reveal_strlit("]");
    reveal_strlit("}");
    let q1 = i + "{\"header\":"@.len();
    let q2 = q1 + header_json(bv.header).len();
    let q3 = q2 + ",\"payload\":["@.len();
    let q4 = q3 + txs_json(bv.txs).len() + 1;
    assert(text.subrange(i, j2).len() == j2 - i);
    assert(j2 == q4 + 1);
    assert(text.subrange(i, q1) =~= text.subrange(i, j2).subrange(0, q1 - i));
    assert(block_json(bv).subrange(0, q1 - i) =~= "{\"header\":"@);
    assert(text.subrange(q1, q2) =~= text.subrange(i, j2).subrange(q1 - i, q2 - i));
    assert(block_json(bv).subrange(q1 - i, q2 - i) =~= header_json(bv.header));
    assert(text.subrange(q2, q3) =~= text.subrange(i, j2).subrange(q2 - i, q3 - i));
    assert(block_json(bv).subrange(q2 - i, q3 - i) =~= ",\"payload\":["@);
    assert(text.subrange(q3, q4) =~= text.subrange(i, j2).subrange(q3 - i, q4 - i));
    assert(block_json(bv).subrange(q3 - i, q4 - i) =~= txs_json(bv.txs) + "]"@);
    assert(text.subrange(q4, j2) =~= text.subrange(i, j2).subrange(q4 - i, j2 - i));
    assert(block_json(bv).subrange(q4 - i, j2 - i) =~= "}"@);
}

/// Reads one canonical serialized block. The reading is exact for
/// well-formed blocks (those whose parent hash is 32 bytes, as every real
/// block's is).
fn parse_block(s: &str, i: usize) -> (r: Option<(Block, usize)>)
    requires
        i <= s@.len(),
    ensures
        match r {
            Some((b, j)) => {
                &&& i < j <= s@.len()
                &&& b@.wf()
                &&& s@.subrange(i as int, j as int) == block_json(b@)
                &&& forall|bv: BlockV, j2: int|
                    #![trigger block_json(bv), s@.subrange(i as int, j2)]
                    i <= j2 <= s@.len() && bv.wf() && s@.subrange(i as int, j2) == block_json(bv)
                        ==> j2 == j && bv == b@
            },
            None => forall|bv: BlockV, j2: int|
                #![trigger block_json(bv), s@.subrange(i as int, j2)]
                i <= j2 <= s@.len() && bv.wf() ==> s@.subrange(i as int, j2) != block_json(bv),
        },
{
    proof {
        reveal_strlit("{\"header\":");
        reveal_strlit(",\"payload\":[");
        reveal_strlit("}");
    }
    let p1 = match expect_lit(s, i, "{\"header\":") {
        Some(p) => p,
        None => {
            proof {
                assert forall|bv: BlockV, j2: int|
                    #![trigger block_json(bv), s@.subrange(i as int, j2)]
                    i <= j2 <= s@.len() && bv.wf() implies s@.subrange(i as int, j2) != block_json(
                    bv,
                ) by {
                    if s@.subrange(i as int, j2) == block_json(bv) {
                        lemma_block_json_parts(s@, i as int, j2, bv);
                    }
                }
            }
            return None;
        },
    };
    let (header, p2) = match parse_header(s, p1) {
        Some(x) => x,
        None => {
            proof {
                assert forall|bv: BlockV, j2: int|
                    #![trigger block_json(bv), s@.subrange(i as int, j2)]
                    i <= j2 <= s@.len() && bv.wf() implies s@.subrange(i as int, j2) != block_json(
                    bv,
                ) by {
                    if s@.subrange(i as int, j2) == block_json(bv) {
                        lemma_block_json_parts(s@, i as int, j2, bv);
                        let q2 = p1 + header_json(bv.header).len();
                        assert(s@.subrange(p1 as int, q2) == header_json(bv.header));
                    }
                }
            }
            return None;
        },
    };
    let p3 = match expect_lit(s, p2, ",\"payload\":[") {
        Some(p) => p,
        None => {
            proof {
                assert forall|bv: BlockV, j2: int|
                    #![trigger block_json(bv), s@.subrange(i as int, j2)]
                    i <= j2 <= s@.len() && bv.wf() implies s@.subrange(i as int, j2) != block_json(
                    bv,
                ) by {
                    if s@.subrange(i as int, j2) == block_json(bv) {
                        lemma_block_json_parts(s@, i as int, j2, bv);
                        let q2 = p1 + header_json(bv.header).len();
                        assert(s@.subrange(p1 as int, q2) == header_json(bv.header));
                        assert(q2 == p2);
                        assert(s@.subrange(p2 as int, p2 + ",\"payload\":["@.len() as int)
                            == ",\"payload\":["@);
                    }
                }
            }
            return None;
        },
    };
    let (txs, p4) = match parse_txs(s, p3) {
        Some(x) => x,
        None => {
            proof {
                assert forall|bv: BlockV, j2: int|
                    #![trigger block_json(bv), s@.subrange(i as int, j2)]
                    i <= j2 <= s@.len() && bv.wf() implies s@.subrange(i as int, j2) != block_json(
                    bv,
                ) by {
                    if s@.subrange(i as int, j2) == block_json(bv) {
                        lemma_block_json_parts(s@, i as int, j2, bv);
                        let q2 = p1 + header_json(bv.header).len();
                        assert(s@.subrange(p1 as int, q2) == header_json(bv.header));
                        assert(q2 == p2);
                        let q4 = p3 + txs_json(bv.txs).len() + 1;
                        assert(s@.subrange(p3 as int, q4) == txs_json(bv.txs) + "]"@);
                    }
                }
            }
            return None;
        },
    };
    let p5 = match expect_lit(s, p4, "}") {
        Some(p) => p,
        None => {
            proof {
                assert forall|bv: BlockV, j2: int|
                    #![trigger block_json(bv), s@.subrange(i as int, j2)]
                    i <= j2 <= s@.len() && bv.wf() implies s@.subrange(i as int, j2) != block_json(
                    bv,
                ) by {
                    if s@.subrange(i as int, j2) == block_json(bv) {
                        lemma_block_json_parts(s@, i as int, j2, bv);
                        let q2 = p1 + header_json(bv.header).len();
                        assert(s@.subrange(p1 as int, q2) == header_json(bv.header));
                        assert(q2 == p2);
                        let q4 = p3 + txs_json(bv.txs).len() + 1;
                        assert(s@.subrange(p3 as int, q4) == txs_json(bv.txs) + "]"@);
                        assert(q4 == p4);
                        assert(s@.subrange(p4 as int, p4 + 1) == "}"@);
                    }
                }
            }
            return None;
        },
    };
    let b = Block { header, txs };
    proof {
        assert(("{\"header\":")@.len() > 0);
        assert(s@.subrange(i as int, p5 as int) =~= s@.subrange(i as int, p1 as int) + s@.subrange(
            p1 as int,
            p2 as int,
        ) + s@.subrange(p2 as int, p3 as int) + s@.subrange(p3 as int, p4 as int) + s@.subrange(
            p4 as int,
            p5 as int,
        ));
        assert(s@.subrange(i as int, p5 as int) =~= block_json(b@));
        assert forall|bv: BlockV, j2: int|
            #![trigger block_json(bv), s@.subrange(i as int, j2)]
            i <= j2 <= s@.len() && bv.wf() && s@.subrange(i as int, j2) == block_json(bv) implies
            j2 == p5 && bv == b@ by {
            lemma_block_json_parts(s@, i as int, j2, bv);
            let q2 = p1 + header_json(bv.header).len();
            assert(s@.subrange(p1 as int, q2) == header_json(bv.header));
            assert(q2 == p2 && bv.header == header@);
            let q4 = p3 + txs_json(bv.txs).len() + 1;
            assert(s@.subrange(p3 as int, q4) == txs_json(bv.txs) + "]"@);
            assert(q4 == p4 && bv.txs == crate::block::txs_view(txs@));
        }
    }
    Some((b, p5))
}

/// How a serialized record decomposes when it stands at `[i, j2)` of the
/// text.
proof fn lemma_record_json_parts(text: Seq<char>, i: int, j2: int, rv: RecordV)
    requires
        0 <= i <= j2 <= text.len(),
        text.subrange(i, j2) == record_json(rv),
    ensures
        ({
            let q1 = i + "{\"hash\":\""@.len();
            let q2 = q1 + esc(rv.blockhash).len() + 1;
            let q3 = q2 + ",\"block\":"@.len();
            let q4 = q3 + block_json(rv.block).len();
            &&& j2 == q4 + 1
            &&& text.subrange(i, q1) == "{\"hash\":\""@
            &&& text.subrange(q1, q2) == esc(rv.blockhash) + "\""@
            &&& text.subrange(q2, q3) == ",\"block\":"@
            &&& text.subrange(q3, q4) == block_json(rv.block)
            &&& text.subrange(q4, j2) == "}"@
        }),
{
    reveal_strlit("{\"hash\":\"");
    reveal_strlit("\"");
    reveal_strlit(",\"block\":");
    reveal_strlit("}");
    let q1 = i + "{\"hash\":\""@.len();
    let q2 = q1 + esc(rv.blockhash).len() + 1;
    let q3 = q2 + ",\"block\":"@.len();
    let q4 = q3 + block_json(rv.block).len();
    assert(text.subrange(i, j2).len() == j2 - i);
    assert(j2 == q4 + 1);
    assert(text.subrange(i, q1) =~= text.subrange(i, j2).subrange(0, q1 - i));
    assert(record_json(rv).subrange(0, q1 - i) =~= "{\"hash\":\""@);
    assert(text.subrange(q1, q2) =~= text.subrange(i, j2).subrange(q1 - i, q2 - i));
    assert(record_json(rv).subrange(q1 - i, q2 - i) =~= esc(rv.blockhash) + "\""@);
    assert(text.subrange(q2, q3) =~= text.subrange(i, j2).subrange(q2 - i, q3 - i));
    assert(record_json(rv).subrange(q2 - i, q3 - i) =~= ",\"block\":"@);
    assert(text.subrange(q3, q4) =~= text.subrange(i, j2).subrange(q3 - i, q4 - i));
    assert(record_json(rv).subrange(q3 - i, q4 - i) =~= block_json(rv.block));
    assert(text.subrange(q4, j2) =~= text.subrange(i, j2).subrange(q4 - i, j2 - i));
    assert(record_json(rv).subrange(q4 - i, j2 - i) =~= "}"@);
}

/// Reads one whole log line as a block record. The reading is exact: it
/// succeeds precisely when the line is the canonical serialization of a
/// well-formed record, and then returns that record, which is unique.
#[verifier::rlimit(80)]
pub fn parse_record(line: &str) -> (r: Option<BlockRecord>)
    ensures
        match r {
            Some(rec) => {
                &&& rec@.wf()
                &&& line@ == record_json(rec@)
                &&& forall|rv: RecordV|
                    rv.wf() && line@ == record_json(rv) ==> rv == rec@
            },
            None => forall|rv: RecordV| rv.wf() ==> line@ != record_json(rv),
        },
{
    proof {
        reveal_strlit("{\"hash\":\"");
        reveal_strlit("\"");
        reveal_strlit(",\"block\":");
        reveal_strlit("}");
        assert(line@.subrange(0, line@.len() as int) =~= line@);
    }
    let n = line.unicode_len();
    let p1 = match expect_lit(line, 0, "{\"hash\":\"") {
        Some(p) => p,
        None => {
            proof {
                assert forall|rv: RecordV| rv.wf() implies line@ != record_json(rv) by {
                    if line@ == record_json(rv) {
                        lemma_record_json_parts(line@, 0, n as int, rv);
                    }
                }
            }
            return None;
        },
    };
    let (blockhash, p2) = match parse_json_string(line, p1) {
        Some(x) => x,
        None => {
            proof {
                assert forall|rv: RecordV| rv.wf() implies line@ != record_json(rv) by {
                    if line@ == record_json(rv) {
                        lemma_record_json_parts(line@, 0, n as int, rv);
                        let q2 = p1 + esc(rv.blockhash).len() + 1;
                        assert(line@.subrange(p1 as int, q2) == esc(rv.blockhash) + "\""@);
                    }
                }
            }
            return None;
        },
    };
    let p3 = match expect_lit(line, p2, ",\"block\":") {
        Some(p) => p,
        None => {
            proof {
                assert forall|rv: RecordV| rv.wf() implies line@ != record_json(rv) by {
                    if line@ == record_json(rv) {
                        lemma_record_json_parts(line@, 0, n as int, rv);
                        let q2 = p1 + esc(rv.blockhash).len() + 1;
                        assert(line@.subrange(p1 as int, q2) == esc(rv.blockhash) + "\""@);
                        assert(q2 == p2);
                        assert(line@.subrange(p2 as int, p2 + ",\"block\":"@.len() as int)
                            == ",\"block\":"@);
                    }
                }
            }
            return None;
        },
    };
    let (block, p4) = match parse_block(line, p3) {
        Some(x) => x,
        None => {
            proof {
                assert forall|rv: RecordV| rv.wf() implies line@ != record_json(rv) by {
                    if line@ == record_json(rv) {
                        lemma_record_json_parts(line@, 0, n as int, rv);
                        let q2 = p1 + esc(rv.blockhash).len() + 1;
                        assert(line@.subrange(p1 as int, q2) == esc(rv.blockhash) + "\""@);
                        assert(q2 == p2);
                        let q4 = p3 + block_json(rv.block).len();
                        assert(line@.subrange(p3 as int, q4) == block_json(rv.block));
                    }
                }
            }
            return None;
        },
    };
    let p5 = match expect_lit(line, p4, "}") {
        Some(p) => p,
        None => {
            proof {
                assert forall|rv: RecordV| rv.wf() implies line@ != record_json(rv) by {
                    if line@ == record_json(rv) {
                        lemma_record_json_parts(line@, 0, n as int, rv);
                        let q2 = p1 + esc(rv.blockhash).len() + 1;
                        assert(line@.subrange(p1 as int, q2) == esc(rv.blockhash) + "\""@);
                        assert(q2 == p2);
                        let q4 = p3 + block_json(rv.block).len();
                        assert(line@.subrange(p3 as int, q4) == block_json(rv.block));
                        assert(q4 == p4);
                        assert(line@.subrange(p4 as int, p4 + 1) == "}"@);
                    }
                }
            }
            return None;
        },
    };
    if p5 != n {
        proof {
            assert forall|rv: RecordV| rv.wf() implies line@ != record_json(rv) by {
                if line@ == record_json(rv) {
                    lemma_record_json_parts(line@, 0, n as int, rv);
                    let q2 = p1 + esc(rv.blockhash).len() + 1;
                    assert(line@.subrange(p1 as int, q2) == esc(rv.blockhash) + "\""@);
                    assert(q2 == p2);
                    let q4 = p3 + block_json(rv.block).len();
                    assert(line@.subrange(p3 as int, q4) == block_json(rv.block));
                    assert(q4 == p4);
                }
            }
        }
        return None;
    }
    let rec = BlockRecord { blockhash, block };
    proof {
        assert(line@.subrange(0, p5 as int) =~= line@.subrange(0, p1 as int) + line@.subrange(
            p1 as int,
            p2 as int,
        ) + line@.subrange(p2 as int, p3 as int) + line@.subrange(p3 as int, p4 as int)
            + line@.subrange(p4 as int, p5 as int));
        assert(line@.subrange(0, p5 as int) =~= record_json(rec@));
        assert(line@.subrange(0, n as int) =~= line@);
        assert forall|rv: RecordV| rv.wf() && line@ == record_json(rv) implies rv == rec@ by {
            lemma_record_json_parts(line@, 0, n as int, rv);
            let q2 = p1 + esc(rv.blockhash).len() + 1;
            assert(line@.subrange(p1 as int, q2) == esc(rv.blockhash) + "\""@);
            assert(q2 == p2 && rv.blockhash == blockhash@);
            let q4 = p3 + block_json(rv.block).len();
            assert(line@.subrange(p3 as int, q4) == block_json(rv.block));
            assert(q4 == p4 && rv.block == block@);
        }
    }
    Some(rec)
}

pub open spec fn lines_view(ls: Seq<String>) -> Seq<Seq<char>> {
    ls.map_values(|x: String| x@)
}

/// The text whose lines are `ls`, each line followed by one newline.
pub open spec fn join_lines(ls: Seq<Seq<char>>) -> Seq<char>
    decreases ls.len(),
{
    if ls.len() == 0 {
        Seq::empty()
    } else {
        ls[0] + seq!['\n'] + join_lines(ls.drop_first())
    }
}

pub proof fn lemma_join_snoc(ls: Seq<Seq<char>>, l: Seq<char>)
    ensures
        join_lines(ls.push(l)) == join_lines(ls) + l + seq!['\n'],
    decreases ls.len(),
{
    if ls.len() == 0 {
        assert(ls.push(l)[0] == l);
        assert(ls.push(l).drop_first() =~= Seq::<Seq<char>>::empty());
        assert(join_lines(Seq::<Seq<char>>::empty()) =~= Seq::<char>::empty());
        assert(join_lines(ls) =~= Seq::<char>::empty());
        assert(join_lines(ls.push(l)) =~= join_lines(ls) + l + seq!['\n']);
    } else {
        lemma_join_snoc(ls.drop_first(), l);
        assert(ls.push(l).drop_first() =~= ls.drop_first().push(l));
        assert(join_lines(ls.push(l)) =~= join_lines(ls) + l + seq!['\n']);
    }
}

/// Splits text into its newline-delimited lines: either the text is exactly
/// the returned lines each followed by a newline, or the final line lacked
/// its newline and stands last (and is then nonempty). No returned line
/// holds a newline, so the reading is the unique one.
pub fn split_lines(s: &str) -> (r: Vec<String>)
    ensures
        join_lines(lines_view(r@)) == s@ || (r@.len() > 0 && lines_view(r@).last().len() > 0
            && join_lines(lines_view(r@).drop_last()) + lines_view(r@).last() == s@),
        forall|k: int| 0 <= k < r@.len() ==> line_safe(#[trigger] lines_view(r@)[k]),
{
    let n = s.unicode_len();
    let mut done: Vec<String> = Vec::new();
    let mut cur = String::new();
    let mut p: usize = 0;
    proof {
        assert(lines_view(done@) =~= Seq::<Seq<char>>::empty());
        assert(join_lines(Seq::<Seq<char>>::empty()) =~= Seq::<char>::empty());
        assert(s@.subrange(0, 0) =~= Seq::<char>::empty());
        assert(join_lines(lines_view(done@)) + cur@ =~= s@.subrange(0, 0));
    }
    while p < n
        invariant
            p <= n,
            n == s@.len(),
            join_lines(lines_view(done@)) + cur@ == s@.subrange(0, p as int),
            line_safe(cur@),
            forall|k: int| 0 <= k < done@.len() ==> line_safe(#[trigger] lines_view(done@)[k]),
        decreases n - p,
    {
        let c = s.get_char(p);
        let ghost lines0 = lines_view(done@);
        let ghost cur0 = cur@;
        if c == '\n' {
            done.push(cur);
            cur = String::new();
            proof {
                assert(lines_view(done@) =~= lines0.push(cur0));
                lemma_join_snoc(lines0, cur0);
                assert(s@.subrange(0, p + 1) =~= s@.subrange(0, p as int) + seq!['\n']);
                assert(join_lines(lines_view(done@)) + cur@ =~= s@.subrange(0, p + 1));
            }
        } else {
            let piece = s.substring_char(p, p + 1);
            let ghost cur0 = cur@;
            cur.append(piece);
            proof {
                assert(piece@ =~= seq![c]);
                assert(cur@ =~= cur0 + seq![c]);
                assert(s@.subrange(0, p + 1) =~= s@.subrange(0, p as int) + seq![c]);
                assert(join_lines(lines_view(done@)) + cur@ =~= s@.subrange(0, p + 1));
                assert forall|k: int| 0 <= k < cur@.len() implies cur@[k] != '\n' by {
                    if k < cur0.len() {
                        assert(cur@[k] == cur0[k]);
                    }
                }
            }
        }
        p = p + 1;
    }
    proof {
        assert(s@.subrange(0, n as int) =~= s@);
    }
    if cur.unicode_len() > 0 {
        let ghost lines0 = lines_view(done@);
        let ghost cur0 = cur@;
        done.push(cur);
        proof {
            assert(lines_view(done@) =~= lines0.push(cur0));
            assert(lines_view(done@).drop_last() =~= lines0);
            assert(lines_view(done@).last() == cur0);
        }
    }
    done
}


/// A character the document grammar treats as blank space.
pub open spec fn is_ws(c: char) -> bool {
    c == ' ' || c == '\t' || c == '\r' || c == '\n'
}

/// The first position at or after `i` holding a non-blank character (or the
/// text's end): where every token search resumes.
pub open spec fn ws_end(t: Seq<char>, i: int) -> int
    decreases t.len() - i
        when 0 <= i <= t.len()
{
    if i < t.len() && is_ws(t[i]) {
        ws_end(t, i + 1)
    } else {
        i
    }
}

/// Advances past spaces, tabs, carriage returns and newlines, exactly to the
/// first non-blank character.
pub(crate) fn skip_ws(s: &str, i: usize) -> (r: usize)
    requires
        i <= s@.len(),
    ensures
        i <= r <= s@.len(),
        r == ws_end(s@, i as int),
{
    let n = s.unicode_len();
    let mut p = i;
    while p < n
        invariant
            i <= p <= n,
            n == s@.len(),
            ws_end(s@, i as int) == ws_end(s@, p as int),
        decreases n - p,
    {
        let c = s.get_char(p);
        if c == ' ' || c == '\t' || c == '\r' || c == '\n' {
            proof {
                assert(ws_end(s@, p as int) == ws_end(s@, p + 1));
            }
            p = p + 1;
        } else {
            proof {
                assert(ws_end(s@, p as int) == p);
            }
            return p;
        }
    }
    proof {
        assert(ws_end(s@, p as int) == p);
    }
    p
}


/// Text that cannot break the log's line framing.
pub open spec fn line_safe(s: Seq<char>) -> bool {
    forall|k: int| 0 <= k < s.len() ==> s[k] != '\n'
}

proof fn lemma_line_safe_concat(a: Seq<char>, b: Seq<char>)
    requires
        line_safe(a),
        line_safe(b),
    ensures
        line_safe(a + b),
{
    assert forall|k: int| 0 <= k < (a + b).len() implies (a + b)[k] != '\n' by {
        if k >= a.len() {
            assert((a + b)[k] == b[k - a.len()]);
        }
    }
}

proof fn lemma_esc_line_safe(s: Seq<char>)
    ensures
        line_safe(esc(s)),
    decreases s.len(),
{
    if s.len() > 0 {
        lemma_esc_line_safe(s.drop_first());
        assert forall|k: int| 0 <= k < esc_char(s[0]).len() implies esc_char(s[0])[k] != '\n' by {}
        lemma_line_safe_concat(esc_char(s[0]), esc(s.drop_first()));
    }
}

proof fn lemma_dec_line_safe(n: nat)
    ensures
        line_safe(dec(n)),
{
    lemma_dec_digits(n);
}

proof fn lemma_hex_line_safe(bytes: Seq<u8>)
    ensures
        line_safe(hex_of(bytes)),
{
    crate::hash::lemma_hex_of_all_hex(bytes);
}

proof fn lemma_txs_json_line_safe(ts: Seq<TxV>)
    ensures
        line_safe(txs_json(ts)),
    decreases ts.len(),
{
    reveal_strlit("{\"from\":\"");
    reveal_strlit("\"");
    reveal_strlit(",\"to\":\"");
    reveal_strlit(",\"value\":");
    reveal_strlit(",\"data\":\"");
    reveal_strlit("}");
    reveal_strlit(",");
    if ts.len() > 0 {
        lemma_esc_line_safe(ts[0].from);
        lemma_esc_line_safe(ts[0].to);
        lemma_esc_line_safe(ts[0].data);
        lemma_dec_line_safe(ts[0].value as nat);
        lemma_line_safe_concat("{\"from\":\""@, esc(ts[0].from));
        lemma_line_safe_concat("{\"from\":\""@ + esc(ts[0].from), "\""@);
        lemma_line_safe_concat("{\"from\":\""@ + esc(ts[0].from) + "\""@, ",\"to\":\""@);
        lemma_line_safe_concat(
            "{\"from\":\""@ + esc(ts[0].from) + "\""@ + ",\"to\":\""@,
            esc(ts[0].to),
        );
        lemma_line_safe_concat(
            "{\"from\":\""@ + esc(ts[0].from) + "\""@ + ",\"to\":\""@ + esc(ts[0].to),
            "\""@,
        );
        lemma_line_safe_concat(
            "{\"from\":\""@ + esc(ts[0].from) + "\""@ + ",\"to\":\""@ + esc(ts[0].to) + "\""@,
            ",\"value\":"@,
        );
        lemma_line_safe_concat(
            "{\"from\":\""@ + esc(ts[0].from) + "\""@ + ",\"to\":\""@ + esc(ts[0].to) + "\""@
                + ",\"value\":"@,
            dec(ts[0].value as nat),
        );
        lemma_line_safe_concat(
            "{\"from\":\""@ + esc(ts[0].from) + "\""@ + ",\"to\":\""@ + esc(ts[0].to) + "\""@
                + ",\"value\":"@ + dec(ts[0].value as nat),
            ",\"data\":\""@,
        );
        lemma_line_safe_concat(
            "{\"from\":\""@ + esc(ts[0].from) + "\""@ + ",\"to\":\""@ + esc(ts[0].to) + "\""@
                + ",\"value\":"@ + dec(ts[0].value as nat) + ",\"data\":\""@,
            esc(ts[0].data),
        );
        lemma_line_safe_concat(
            "{\"from\":\""@ + esc(ts[0].from) + "\""@ + ",\"to\":\""@ + esc(ts[0].to) + "\""@
                + ",\"value\":"@ + dec(ts[0].value as nat) + ",\"data\":\""@ + esc(ts[0].data),
            "\""@,
        );
        lemma_line_safe_concat(
            "{\"from\":\""@ + esc(ts[0].from) + "\""@ + ",\"to\":\""@ + esc(ts[0].to) + "\""@
                + ",\"value\":"@ + dec(ts[0].value as nat) + ",\"data\":\""@ + esc(ts[0].data)
                + "\""@,
            "}"@,
        );
        assert(line_safe(tx_json(ts[0])));
        if ts.len() > 1 {
            lemma_txs_json_line_safe(ts.drop_first());
            lemma_line_safe_concat(tx_json(ts[0]), ","@);
            lemma_line_safe_concat(tx_json(ts[0]) + ","@, txs_json(ts.drop_first()));
        }
    }
}

/// No canonical log line can hold the line terminator: every character of a
/// serialized record is a literal, a hex digit, a decimal digit or an
/// escaped string character, and the escaping never writes a raw newline.
/// Appending a record line and one newline to the log therefore keeps the
/// log exactly one record per line.
pub proof fn lemma_record_json_line_safe(rec: RecordV)
    ensures
        line_safe(record_json(rec)),
{
    reveal_strlit("{\"hash\":\"");
    reveal_strlit("\"");
    reveal_strlit(",\"block\":");
    reveal_strlit("{\"header\":");
    reveal_strlit("{\"parent\":\"");
    reveal_strlit(",\"height\":");
    reveal_strlit(",\"time\":");
    reveal_strlit("}");
    reveal_strlit(",\"payload\":[");
    reveal_strlit("]");
    let h = rec.block.header;
    lemma_hex_line_safe(h.parent);
    lemma_dec_line_safe(h.height as nat);
    lemma_dec_line_safe(h.time as nat);
    lemma_line_safe_concat("{\"parent\":\""@, hex_of(h.parent));
    lemma_line_safe_concat("{\"parent\":\""@ + hex_of(h.parent), "\""@);
    lemma_line_safe_concat("{\"parent\":\""@ + hex_of(h.parent) + "\""@, ",\"height\":"@);
    lemma_line_safe_concat(
        "{\"parent\":\""@ + hex_of(h.parent) + "\""@ + ",\"height\":"@,
        dec(h.height as nat),
    );
    lemma_line_safe_concat(
        "{\"parent\":\""@ + hex_of(h.parent) + "\""@ + ",\"height\":"@ + dec(h.height as nat),
        ",\"time\":"@,
    );
    lemma_line_safe_concat(
        "{\"parent\":\""@ + hex_of(h.parent) + "\""@ + ",\"height\":"@ + dec(h.height as nat)
            + ",\"time\":"@,
        dec(h.time as nat),
    );
    lemma_line_safe_concat(
        "{\"parent\":\""@ + hex_of(h.parent) + "\""@ + ",\"height\":"@ + dec(h.height as nat)
            + ",\"time\":"@ + dec(h.time as nat),
        "}"@,
    );
    assert(line_safe(header_json(h)));
    lemma_txs_json_line_safe(rec.block.txs);
    lemma_line_safe_concat("{\"header\":"@, header_json(h));
    lemma_line_safe_concat("{\"header\":"@ + header_json(h), ",\"payload\":["@);
    lemma_line_safe_concat(
        "{\"header\":"@ + header_json(h) + ",\"payload\":["@,
        txs_json(rec.block.txs),
    );
    lemma_line_safe_concat(
        "{\"header\":"@ + header_json(h) + ",\"payload\":["@ + txs_json(rec.block.txs),
        "]"@,
    );
    lemma_line_safe_concat(
        "{\"header\":"@ + header_json(h) + ",\"payload\":["@ + txs_json(rec.block.txs) + "]"@,
        "}"@,
    );
    assert(line_safe(block_json(rec.block)));
    lemma_esc_line_safe(rec.blockhash);
    lemma_line_safe_concat("{\"hash\":\""@, esc(rec.blockhash));
    lemma_line_safe_concat("{\"hash\":\""@ + esc(rec.blockhash), "\""@);
    lemma_line_safe_concat("{\"hash\":\""@ + esc(rec.blockhash) + "\""@, ",\"block\":"@);
    lemma_line_safe_concat(
        "{\"hash\":\""@ + esc(rec.blockhash) + "\""@ + ",\"block\":"@,
        block_json(rec.block),
    );
    lemma_line_safe_concat(
        "{\"hash\":\""@ + esc(rec.blockhash) + "\""@ + ",\"block\":"@ + block_json(rec.block),
        "}"@,
    );
}


/// Whether a text reads as exactly these lines: each followed by a newline,
/// or the last one standing unterminated (and then nonempty).
pub open spec fn lines_match(text: Seq<char>, ls: Seq<Seq<char>>) -> bool {
    join_lines(ls) == text || (ls.len() > 0 && ls.last().len() > 0 && join_lines(ls.drop_last())
        + ls.last() == text)
}

proof fn lemma_first_line(x: Seq<char>, rx: Seq<char>, y: Seq<char>, ry: Seq<char>)
    requires
        x + seq!['\n'] + rx == y + seq!['\n'] + ry,
        line_safe(x),
        line_safe(y),
    ensures
        x == y,
        rx == ry,
{
    let w = x + seq!['\n'] + rx;
    assert(w.len() == x.len() + 1 + rx.len());
    assert(w.len() == y.len() + 1 + ry.len());
    assert(x.len() == y.len()) by {
        if x.len() < y.len() {
            assert((x + seq!['\n'])[x.len() as int] == '\n');
            assert(w[x.len() as int] == '\n');
            assert((y + seq!['\n'])[x.len() as int] == y[x.len() as int]);
            assert(w[x.len() as int] == y[x.len() as int]);
            assert(false);
        }
        if y.len() < x.len() {
            assert((y + seq!['\n'])[y.len() as int] == '\n');
            assert(w[y.len() as int] == '\n');
            assert((x + seq!['\n'])[y.len() as int] == x[y.len() as int]);
            assert(w[y.len() as int] == x[y.len() as int]);
            assert(false);
        }
    }
    assert forall|k: int| 0 <= k < x.len() implies x[k] == y[k] by {
        assert(w[k] == x[k]);
        assert(w[k] == y[k]);
    }
    assert(x =~= y);
    assert forall|k: int| 0 <= k < rx.len() implies rx[k] == ry[k] by {
        assert(w[x.len() + 1 + k] == rx[k]);
        assert(w[y.len() + 1 + k] == ry[k]);
    }
    assert(rx =~= ry);
}

/// A text reads as newline-free lines in at most one way.
pub proof fn lemma_lines_unique(text: Seq<char>, a: Seq<Seq<char>>, b: Seq<Seq<char>>)
    requires
        lines_match(text, a),
        lines_match(text, b),
        forall|k: int| 0 <= k < a.len() ==> line_safe(#[trigger] a[k]),
        forall|k: int| 0 <= k < b.len() ==> line_safe(#[trigger] b[k]),
        a.len() > 0 && join_lines(a) != text ==> a.last().len() > 0,
    ensures
        a == b,
    decreases a.len(),
{
    if a.len() == 0 {
        assert(text =~= Seq::<char>::empty());
        if b.len() > 0 {
            if join_lines(b) == text {
                assert(join_lines(b).len() >= b[0].len() + 1);
            } else {
                assert(join_lines(b.drop_last()).len() + b.last().len() >= 1);
            }
        }
        assert(a =~= b);
    } else if b.len() == 0 {
        assert(text =~= Seq::<char>::empty());
        if join_lines(a) == text {
            assert(join_lines(a).len() >= a[0].len() + 1);
        } else {
            assert(join_lines(a.drop_last()).len() + a.last().len() >= 1);
        }
    } else {
        let a_whole = join_lines(a) == text;
        let b_whole = join_lines(b) == text;
        let a_head_terminated = a_whole || a.len() > 1;
        let b_head_terminated = b_whole || b.len() > 1;
        if a_head_terminated && b_head_terminated {
            let ra = if a_whole {
                join_lines(a.drop_first())
            } else {
                join_lines(a.drop_first().drop_last()) + a.last()
            };
            if !a_whole {
                assert(join_lines(a.drop_last()) == a[0] + seq!['\n'] + join_lines(
                    a.drop_last().drop_first(),
                ));
                assert(a.drop_last().drop_first() =~= a.drop_first().drop_last());
                assert(a[0] + seq!['\n'] + (join_lines(a.drop_first().drop_last()) + a.last())
                    =~= join_lines(a.drop_last()) + a.last());
            }
            assert(a[0] + seq!['\n'] + ra == text);
            let rb = if b_whole {
                join_lines(b.drop_first())
            } else {
                join_lines(b.drop_first().drop_last()) + b.last()
            };
            if !b_whole {
                assert(join_lines(b.drop_last()) == b[0] + seq!['\n'] + join_lines(
                    b.drop_last().drop_first(),
                ));
                assert(b.drop_last().drop_first() =~= b.drop_first().drop_last());
                assert(b[0] + seq!['\n'] + (join_lines(b.drop_first().drop_last()) + b.last())
                    =~= join_lines(b.drop_last()) + b.last());
            }
            assert(b[0] + seq!['\n'] + rb == text);
            lemma_first_line(a[0], ra, b[0], rb);
            let ad = a.drop_first();
            let bd = b.drop_first();
            assert(lines_match(ra, ad)) by {
                if !a_whole {
                    assert(ad.len() > 0 && ad.last() == a.last());
                    assert(ad.drop_last() =~= a.drop_first().drop_last());
                }
            }
            assert(lines_match(ra, bd)) by {
                if !b_whole {
                    assert(bd.len() > 0 && bd.last() == b.last());
                    assert(bd.drop_last() =~= b.drop_first().drop_last());
                }
            }
            assert(forall|k: int| 0 <= k < ad.len() ==> line_safe(#[trigger] ad[k]));
            assert(forall|k: int| 0 <= k < bd.len() ==> line_safe(#[trigger] bd[k]));
            assert(ad.len() > 0 && join_lines(ad) != ra ==> ad.last().len() > 0) by {
                if ad.len() > 0 && join_lines(ad) != ra {
                    assert(!a_whole);
                }
            }
            lemma_lines_unique(ra, ad, bd);
            assert(a.len() == b.len());
            assert forall|k: int| 0 <= k < a.len() implies a[k] == b[k] by {
                if k > 0 {
                    assert(a[k] == ad[k - 1]);
                    assert(b[k] == bd[k - 1]);
                }
            }
            assert(a =~= b);
        } else if !a_head_terminated && !b_head_terminated {
            assert(a.len() == 1 && b.len() == 1);
            assert(join_lines(a.drop_last()) =~= Seq::<char>::empty());
            assert(join_lines(b.drop_last()) =~= Seq::<char>::empty());
            assert(a[0] =~= text);
            assert(b[0] =~= text);
            assert(a =~= b);
        } else if !a_head_terminated {
            assert(a.len() == 1 && !a_whole);
            assert(join_lines(a.drop_last()) =~= Seq::<char>::empty());
            assert(a[0] =~= text);
            assert(line_safe(text));
            if b_whole {
                assert(text[b[0].len() as int] == '\n');
            } else {
                assert(b.len() > 1);
                assert(join_lines(b.drop_last()) == b[0] + seq!['\n'] + join_lines(
                    b.drop_last().drop_first(),
                ));
                assert(text[b[0].len() as int] == '\n');
            }
        } else {
            assert(b.len() == 1 && !b_whole);
            assert(join_lines(b.drop_last()) =~= Seq::<char>::empty());
            assert(b[0] =~= text);
            assert(line_safe(text));
            if a_whole {
                assert(text[a[0].len() as int] == '\n');
            } else {
                assert(a.len() > 1);
                assert(join_lines(a.drop_last()) == a[0] + seq!['\n'] + join_lines(
                    a.drop_last().drop_first(),
                ));
                assert(text[a[0].len() as int] == '\n');
            }
        }
    }
}

/// A serialized record is never the empty line.
pub proof fn lemma_record_json_nonempty(rv: RecordV)
    ensures
        record_json(rv).len() > 0,
{
    reveal_strlit("{\"hash\":\"");
}

} // verus!
