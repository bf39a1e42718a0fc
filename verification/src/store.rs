//! The durable progress format.
//!
//! A chain set is persisted as one JSON document: an array of chain objects
//! `{"inscriptionNumber":n,"txs":[...]}` whose steps are objects
//! `{"pushed":b,"txHex":"...","txId":...}`, with `txId` either a string or
//! `null`.  The renderer emits the canonical form of that document (no
//! whitespace, fields in the order above) and the parser accepts exactly the
//! canonical form, so that a saved set loads back field for field.  The
//! payload strings of the format hold hex blobs and transaction identifiers;
//! the format stores them verbatim, so they must be free of `"` and `\`.

use vstd::prelude::*;
use vstd::string::StrSliceExecFns;
use crate::types::{
    ChainModel, Inscription, Tx, TxModel, chain_model, chain_set_model, tx_model, txs_model,
};

verus! {

/// A string the format can store verbatim: free of `"` and `\`.
pub open spec fn json_safe_str(s: Seq<char>) -> bool {
    forall|i: int| 0 <= i < s.len() ==> s[i] != '"' && s[i] != '\\'
}

pub open spec fn tx_renderable(t: TxModel) -> bool {
    &&& json_safe_str(t.tx_hex)
    &&& match t.tx_id {
        Some(id) => json_safe_str(id),
        None => true,
    }
}

pub open spec fn chain_renderable(c: ChainModel) -> bool {
    &&& i64::MIN <= c.number <= i64::MAX
    &&& forall|i: int| 0 <= i < c.txs.len() ==> tx_renderable(#[trigger] c.txs[i])
}

pub open spec fn set_renderable(cs: Seq<ChainModel>) -> bool {
    forall|i: int| 0 <= i < cs.len() ==> chain_renderable(#[trigger] cs[i])
}

pub open spec fn is_digit(c: char) -> bool {
    c == '0' || c == '1' || c == '2' || c == '3' || c == '4' || c == '5' || c == '6' || c == '7'
        || c == '8' || c == '9'
}

pub open spec fn digit_char(d: int) -> char {
    if d == 0 {
        '0'
    } else if d == 1 {
        '1'
    } else if d == 2 {
        '2'
    } else if d == 3 {
        '3'
    } else if d == 4 {
        '4'
    } else if d == 5 {
        '5'
    } else if d == 6 {
        '6'
    } else if d == 7 {
        '7'
    } else if d == 8 {
        '8'
    } else {
        '9'
    }
}

pub open spec fn digit_val(c: char) -> int {
    if c == '0' {
        0
    } else if c == '1' {
        1
    } else if c == '2' {
        2
    } else if c == '3' {
        3
    } else if c == '4' {
        4
    } else if c == '5' {
        5
    } else if c == '6' {
        6
    } else if c == '7' {
        7
    } else if c == '8' {
        8
    } else {
        9
    }
}

/// The number denoted by a digit string, most significant digit first.
pub open spec fn digits_val(s: Seq<char>) -> int
    decreases s.len(),
{
    if s.len() == 0 {
        0
    } else {
        10 * digits_val(s.drop_last()) + digit_val(s.last())
    }
}

/// Decimal rendering of a non-negative number, no leading zeros.
pub open spec fn render_u64(n: int) -> Seq<char>
    decreases n,
{
    if n <= 0 {
        seq!['0']
    } else if n < 10 {
        seq![digit_char(n)]
    } else {
        render_u64(n / 10).push(digit_char(n % 10))
    }
}

/// Decimal rendering of a signed number.
pub open spec fn render_i64(v: int) -> Seq<char> {
    if v < 0 {
        seq!['-'] + render_u64(-v)
    } else {
        render_u64(v)
    }
}

/// A stored string: the characters between two quotes, verbatim.
pub open spec fn render_string(s: Seq<char>) -> Seq<char> {
    seq!['"'] + s + seq!['"']
}

pub open spec fn render_opt_id(o: Option<Seq<char>>) -> Seq<char> {
    match o {
        None => "null"@,
        Some(id) => render_string(id),
    }
}

pub open spec fn render_bool(b: bool) -> Seq<char> {
    if b {
        "true"@
    } else {
        "false"@
    }
}

/// One step of a chain in the stored document.
pub open spec fn render_tx(t: TxModel) -> Seq<char> {
    "{\"pushed\":"@ + render_bool(t.pushed) + ",\"txHex\":"@ + render_string(t.tx_hex)
        + ",\"txId\":"@ + render_opt_id(t.tx_id) + "}"@
}

/// A comma-separated list of steps.
pub open spec fn render_txs(ts: Seq<TxModel>) -> Seq<char>
    decreases ts.len(),
{
    if ts.len() == 0 {
        Seq::empty()
    } else if ts.len() == 1 {
        render_tx(ts[0])
    } else {
        render_tx(ts[0]) + seq![','] + render_txs(ts.skip(1))
    }
}

/// One chain in the stored document.
pub open spec fn render_chain(c: ChainModel) -> Seq<char> {
    "{\"inscriptionNumber\":"@ + render_i64(c.number) + ",\"txs\":["@ + render_txs(c.txs) + "]}"@
}

/// A comma-separated list of chains.
pub open spec fn render_chains(cs: Seq<ChainModel>) -> Seq<char>
    decreases cs.len(),
{
    if cs.len() == 0 {
        Seq::empty()
    } else if cs.len() == 1 {
        render_chain(cs[0])
    } else {
        render_chain(cs[0]) + seq![','] + render_chains(cs.skip(1))
    }
}

/// The whole stored document for a chain set.
pub open spec fn render_set(cs: Seq<ChainModel>) -> Seq<char> {
    seq!['['] + render_chains(cs) + seq![']']
}

/// Facts about decimal rendering: at least one character, digits only, no
/// leading zero (except for zero itself), and it denotes the number.
proof fn lemma_render_u64_digits(n: int)
    requires
        0 <= n,
    ensures
        render_u64(n).len() >= 1,
        forall|i: int| 0 <= i < render_u64(n).len() ==> is_digit(#[trigger] render_u64(n)[i]),
        n > 0 ==> render_u64(n)[0] != '0',
        digits_val(render_u64(n)) == n,
    decreases n,
{
    if n < 10 {
        let s = render_u64(n);
        assert(s.len() == 1);
        assert(s.drop_last() =~= Seq::<char>::empty());
        assert(digits_val(Seq::<char>::empty()) == 0);
        assert(digits_val(s) == digit_val(s[0]));
    } else {
        lemma_render_u64_digits(n / 10);
        let r = render_u64(n / 10);
        let s = render_u64(n);
        assert(s == r.push(digit_char(n % 10)));
        assert(s.drop_last() =~= r);
        assert(s.last() == digit_char(n % 10));
        vstd::arithmetic::div_mod::lemma_fundamental_div_mod(n, 10);
        assert(digit_val(digit_char(n % 10)) == n % 10);
        assert(digits_val(s) == 10 * (n / 10) + n % 10);
        assert forall|i: int| 0 <= i < s.len() implies is_digit(#[trigger] s[i]) by {
            if i < r.len() {
                assert(s[i] == r[i]);
            } else {
                assert(s[i] == digit_char(n % 10));
            }
        }
        assert(s[0] == r[0]);
    }
}

/// The number denoted by a digit string is non-negative.
proof fn lemma_digits_val_nonneg(s: Seq<char>)
    requires
        forall|i: int| 0 <= i < s.len() ==> is_digit(#[trigger] s[i]),
    ensures
        digits_val(s) >= 0,
    decreases s.len(),
{
    if s.len() > 0 {
        assert forall|i: int| 0 <= i < s.drop_last().len() implies is_digit(
            #[trigger] s.drop_last()[i],
        ) by {
            assert(s.drop_last()[i] == s[i]);
        }
        lemma_digits_val_nonneg(s.drop_last());
        assert(digit_val(s.last()) >= 0);
    }
}

/// Dropping trailing digits never increases the denoted number.
proof fn lemma_digits_val_prefix_le(s: Seq<char>, m: int)
    requires
        forall|i: int| 0 <= i < s.len() ==> is_digit(#[trigger] s[i]),
        0 <= m <= s.len(),
    ensures
        digits_val(s.take(m)) <= digits_val(s),
    decreases s.len() - m,
{
    if m == s.len() {
        assert(s.take(m) =~= s);
    } else {
        assert forall|i: int| 0 <= i < s.take(m).len() implies is_digit(
            #[trigger] s.take(m)[i],
        ) by {
            assert(s.take(m)[i] == s[i]);
        }
        lemma_digits_val_nonneg(s.take(m));
        assert(s.take(m + 1).drop_last() =~= s.take(m));
        assert(s.take(m + 1).last() == s[m]);
        assert(digits_val(s.take(m + 1)) == 10 * digits_val(s.take(m)) + digit_val(s[m]));
        assert(digits_val(s.take(m)) <= digits_val(s.take(m + 1)));
        lemma_digits_val_prefix_le(s, m + 1);
    }
}

/// The characters of `pre` stand in `s` at position `i`.
pub open spec fn begins(s: Seq<char>, i: int, pre: Seq<char>) -> bool {
    &&& 0 <= i
    &&& i + pre.len() <= s.len()
    &&& s.subrange(i, i + pre.len()) == pre
}

/// A concatenation stands at `i` exactly when its first part stands at `i`
/// and its second right after it.
pub proof fn lemma_begins_concat(s: Seq<char>, i: int, a: Seq<char>, b: Seq<char>)
    requires
        0 <= i,
    ensures
        begins(s, i, a + b) <==> (begins(s, i, a) && begins(s, i + a.len(), b)),
{
    let ab = a + b;
    if begins(s, i, ab) {
        assert forall|j: int| 0 <= j < a.len() implies s.subrange(i, i + a.len())[j] == a[j] by {
            assert(s.subrange(i, i + ab.len())[j] == s[i + j]);
            assert(s.subrange(i, i + a.len())[j] == s[i + j]);
            assert(ab[j] == a[j]);
        }
        assert(s.subrange(i, i + a.len()) =~= a);
        assert forall|j: int| 0 <= j < b.len() implies s.subrange(
            i + a.len(),
            i + a.len() + b.len(),
        )[j] == b[j] by {
            assert(s.subrange(i, i + ab.len())[a.len() + j] == s[i + a.len() + j]);
            assert(s.subrange(i + a.len(), i + a.len() + b.len())[j] == s[i + a.len() + j]);
            assert(ab[a.len() + j] == b[j]);
        }
        assert(s.subrange(i + a.len(), i + a.len() + b.len()) =~= b);
    }
    if begins(s, i, a) && begins(s, i + a.len(), b) {
        assert forall|j: int| 0 <= j < a.len() implies s[i + j] == a[j] by {
            assert(s.subrange(i, i + a.len())[j] == s[i + j]);
        }
        assert forall|j: int| 0 <= j < b.len() implies s[i + a.len() + j] == b[j] by {
            assert(s.subrange(i + a.len(), i + a.len() + b.len())[j] == s[i + a.len() + j]);
        }
        assert(s.subrange(i, i + ab.len()) =~= ab);
    }
}

/// Each character of a prefix stands at its offset.
pub proof fn lemma_begins_index(s: Seq<char>, i: int, pre: Seq<char>, j: int)
    requires
        begins(s, i, pre),
        0 <= j < pre.len(),
    ensures
        s[i + j] == pre[j],
{
    assert(s.subrange(i, i + pre.len())[j] == s[i + j]);
}

/// Appending one more step to a rendered list appends a comma (when the list
/// was not empty) and the step's rendering.
proof fn lemma_render_txs_push(s: Seq<TxModel>, x: TxModel)
    ensures
        render_txs(s.push(x)) == (if s.len() == 0 {
            render_tx(x)
        } else {
            render_txs(s) + seq![','] + render_tx(x)
        }),
    decreases s.len(),
{
    let sp = s.push(x);
    if s.len() == 0 {
        assert(sp.len() == 1);
        assert(sp[0] == x);
    } else {
        assert(sp[0] == s[0]);
        assert(sp.skip(1) =~= s.skip(1).push(x));
        lemma_render_txs_push(s.skip(1), x);
        assert(render_txs(sp) =~= render_txs(s) + seq![','] + render_tx(x));
    }
}

/// Appending one more chain to a rendered list appends a comma (when the list
/// was not empty) and the chain's rendering.
proof fn lemma_render_chains_push(s: Seq<ChainModel>, x: ChainModel)
    ensures
        render_chains(s.push(x)) == (if s.len() == 0 {
            render_chain(x)
        } else {
            render_chains(s) + seq![','] + render_chain(x)
        }),
    decreases s.len(),
{
    let sp = s.push(x);
    if s.len() == 0 {
        assert(sp.len() == 1);
        assert(sp[0] == x);
    } else {
        assert(sp[0] == s[0]);
        assert(sp.skip(1) =~= s.skip(1).push(x));
        lemma_render_chains_push(s.skip(1), x);
        assert(render_chains(sp) =~= render_chains(s) + seq![','] + render_chain(x));
    }
}

fn digit_to_char(d: u64) -> (c: char)
    requires
        d < 10,
    ensures
        c == digit_char(d as int),
{
    if d == 0 {
        '0'
    } else if d == 1 {
        '1'
    } else if d == 2 {
        '2'
    } else if d == 3 {
        '3'
    } else if d == 4 {
        '4'
    } else if d == 5 {
        '5'
    } else if d == 6 {
        '6'
    } else if d == 7 {
        '7'
    } else if d == 8 {
        '8'
    } else {
        '9'
    }
}

/// Append the characters of `s` to `out`.
fn append_str(out: &mut Vec<char>, s: &str)
    ensures
        final(out)@ == old(out)@ + s@,
{
    let ghost base = out@;
    let n = s.unicode_len();
    proof {
        assert(base + s@.take(0) =~= base);
    }
    let mut i: usize = 0;
    while i < n
        invariant
            0 <= i <= n,
            n == s@.len(),
            out@ == base + s@.take(i as int),
        decreases n - i,
    {
        let c = s.get_char(i);
        out.push(c);
        proof {
            assert(base + s@.take(i + 1) =~= (base + s@.take(i as int)).push(s@[i as int]));
        }
        i = i + 1;
    }
    proof {
        assert(s@.take(n as int) =~= s@);
    }
}

/// Append the decimal rendering of `n`.
fn append_u64(out: &mut Vec<char>, n: u64)
    ensures
        final(out)@ == old(out)@ + render_u64(n as int),
    decreases n,
{
    let ghost base = out@;
    if n < 10 {
        out.push(digit_to_char(n));
        proof {
            assert(render_u64(n as int) =~= seq![digit_char(n as int)]);
            assert(base.push(digit_char(n as int)) =~= base + render_u64(n as int));
        }
    } else {
        append_u64(out, n / 10);
        out.push(digit_to_char(n % 10));
        proof {
            assert((base + render_u64(n as int / 10)).push(digit_char(n as int % 10)) =~= base
                + render_u64(n as int));
        }
    }
}

/// Append the decimal rendering of `v`, sign included.
fn append_i64(out: &mut Vec<char>, v: i64)
    ensures
        final(out)@ == old(out)@ + render_i64(v as int),
{
    let ghost base = out@;
    if v < 0 {
        out.push('-');
        let m: u64 = (-(v as i128)) as u64;
        proof {
            assert(m as int == -(v as int));
        }
        append_u64(out, m);
        proof {
            assert(base.push('-') + render_u64(m as int) =~= base + render_i64(v as int));
        }
    } else {
        append_u64(out, v as u64);
    }
}

/// Append a stored string value, quotes included.
fn append_string_value(out: &mut Vec<char>, s: &String)
    ensures
        final(out)@ == old(out)@ + render_string(s@),
{
    let ghost base = out@;
    out.push('"');
    append_str(out, s.as_str());
    out.push('"');
    proof {
        assert((base.push('"') + s@).push('"') =~= base + render_string(s@));
    }
}

/// Append the stored form of one step.
fn append_tx(out: &mut Vec<char>, t: &Tx)
    ensures
        final(out)@ == old(out)@ + render_tx(tx_model(*t)),
{
    let ghost base = out@;
    append_str(out, "{\"pushed\":");
    if t.pushed {
        append_str(out, "true");
    } else {
        append_str(out, "false");
    }
    append_str(out, ",\"txHex\":");
    append_string_value(out, &t.tx_hex);
    append_str(out, ",\"txId\":");
    match &t.tx_id {
        None => append_str(out, "null"),
        Some(id) => append_string_value(out, id),
    }
    append_str(out, "}");
    proof {
        assert(out@ =~= base + render_tx(tx_model(*t)));
    }
}

/// Append the stored list of a chain's steps.
fn append_txs(out: &mut Vec<char>, ts: &Vec<Tx>)
    ensures
        final(out)@ == old(out)@ + render_txs(txs_model(ts@)),
{
    let ghost base = out@;
    let ghost tm = txs_model(ts@);
    let n = ts.len();
    proof {
        assert(tm.take(0) =~= Seq::<TxModel>::empty());
        assert(base + render_txs(tm.take(0)) =~= base);
    }
    let mut i: usize = 0;
    while i < n
        invariant
            0 <= i <= n,
            n == ts@.len(),
            tm == txs_model(ts@),
            tm.len() == n,
            out@ == base + render_txs(tm.take(i as int)),
        decreases n - i,
    {
        let ghost mid = out@;
        if i > 0 {
            out.push(',');
        }
        append_tx(out, &ts[i]);
        proof {
            assert(tm[i as int] == tx_model(ts@[i as int]));
            assert(tm.take(i + 1) =~= tm.take(i as int).push(tm[i as int]));
            lemma_render_txs_push(tm.take(i as int), tm[i as int]);
            if i > 0 {
                assert(mid.push(',') + render_tx(tm[i as int]) =~= base + render_txs(
                    tm.take(i + 1),
                ));
            } else {
                assert(mid + render_tx(tm[i as int]) =~= base + render_txs(tm.take(i + 1)));
            }
        }
        i = i + 1;
    }
    proof {
        assert(tm.take(n as int) =~= tm);
    }
}

/// Append the stored form of one chain.
fn append_chain(out: &mut Vec<char>, c: &Inscription)
    ensures
        final(out)@ == old(out)@ + render_chain(chain_model(*c)),
{
    let ghost base = out@;
    append_str(out, "{\"inscriptionNumber\":");
    append_i64(out, c.inscription_number);
    append_str(out, ",\"txs\":[");
    append_txs(out, &c.txs);
    append_str(out, "]}");
    proof {
        assert(out@ =~= base + render_chain(chain_model(*c)));
    }
}

/// Render the whole stored document for a chain set: what the scheduler
/// persists after every pass.
pub fn render_chain_set(cs: &Vec<Inscription>) -> (out: Vec<char>)
    ensures
        out@ == render_set(chain_set_model(cs@)),
{
    let ghost cm = chain_set_model(cs@);
    let mut out: Vec<char> = Vec::new();
    out.push('[');
    let ghost base = out@;
    proof {
        assert(cm.take(0) =~= Seq::<ChainModel>::empty());
        assert(base + render_chains(cm.take(0)) =~= base);
    }
    let n = cs.len();
    let mut i: usize = 0;
    while i < n
        invariant
            0 <= i <= n,
            n == cs@.len(),
            cm == chain_set_model(cs@),
            cm.len() == n,
            base == seq!['['],
            out@ == base + render_chains(cm.take(i as int)),
        decreases n - i,
    {
        let ghost mid = out@;
        if i > 0 {
            out.push(',');
        }
        append_chain(&mut out, &cs[i]);
        proof {
            assert(cm[i as int] == chain_model(cs@[i as int]));
            assert(cm.take(i + 1) =~= cm.take(i as int).push(cm[i as int]));
            lemma_render_chains_push(cm.take(i as int), cm[i as int]);
            if i > 0 {
                assert(mid.push(',') + render_chain(cm[i as int]) =~= base + render_chains(
                    cm.take(i + 1),
                ));
            } else {
                assert(mid + render_chain(cm[i as int]) =~= base + render_chains(cm.take(i + 1)));
            }
        }
        i = i + 1;
    }
    out.push(']');
    proof {
        assert(cm.take(n as int) =~= cm);
        assert((base + render_chains(cm)).push(']') =~= render_set(cm));
    }
    out
}

/// Whether `input` holds the exact characters of `lit` at `pos`; `Some`
/// carries the position right after them.
fn match_lit(input: &Vec<char>, pos: usize, lit: &str) -> (r: Option<usize>)
    ensures
        match r {
            Some(j) => j == pos + lit@.len() && begins(input@, pos as int, lit@),
            None => !begins(input@, pos as int, lit@),
        },
{
    let n = lit.unicode_len();
    if pos > input.len() || n > input.len() - pos {
        return None;
    }
    let mut i: usize = 0;
    while i < n
        invariant
            0 <= i <= n,
            n == lit@.len(),
            pos + n <= usize::MAX,
            pos + n <= input@.len(),
            forall|j: int| 0 <= j < i ==> input@[pos + j] == lit@[j],
        decreases n - i,
    {
        let c = lit.get_char(i);
        if input[pos + i] != c {
            proof {
                if begins(input@, pos as int, lit@) {
                    lemma_begins_index(input@, pos as int, lit@, i as int);
                }
            }
            return None;
        }
        i = i + 1;
    }
    proof {
        assert(input@.subrange(pos as int, pos + n) =~= lit@);
    }
    Some(pos + n)
}

/// Parse `true` or `false`.
fn parse_bool(input: &Vec<char>, pos: usize) -> (r: Option<(bool, usize)>)
    ensures
        match r {
            Some(p) => {
                &&& begins(input@, pos as int, render_bool(p.0))
                &&& p.1 == pos + render_bool(p.0).len()
                &&& forall|b2: bool| begins(input@, pos as int, render_bool(b2)) ==> b2 == p.0
            },
            None => forall|b2: bool| !begins(input@, pos as int, render_bool(b2)),
        },
{
    if let Some(j) = match_lit(input, pos, "true") {
        proof {
            reveal_strlit("true");
            reveal_strlit("false");
            if begins(input@, pos as int, render_bool(false)) {
                lemma_begins_index(input@, pos as int, "true"@, 0);
                lemma_begins_index(input@, pos as int, "false"@, 0);
            }
        }
        return Some((true, j));
    }
    if let Some(j) = match_lit(input, pos, "false") {
        proof {
            reveal_strlit("true");
            reveal_strlit("false");
        }
        return Some((false, j));
    }
    None
}

/// Relies on `String`'s `FromIterator<char>` impl: collecting characters
/// yields the string of exactly those characters, in order.
#[verifier::external_body]
fn chars_to_string(v: &Vec<char>) -> (r: String)
    ensures
        r@ == v@,
{
    v.iter().collect()
}

/// Parse a stored string value at `pos`: a quote, verbatim characters free of
/// quote and backslash, and a closing quote.
fn parse_string(input: &Vec<char>, pos: usize) -> (r: Option<(String, usize)>)
    ensures
        match r {
            Some(p) => {
                &&& json_safe_str(p.0@)
                &&& begins(input@, pos as int, render_string(p.0@))
                &&& p.1 == pos + render_string(p.0@).len()
                &&& forall|t: Seq<char>|
                    json_safe_str(t) && begins(input@, pos as int, render_string(t)) ==> t == p.0@
            },
            None => forall|t: Seq<char>|
                json_safe_str(t) ==> !begins(input@, pos as int, render_string(t)),
        },
{
    let n = input.len();
    if pos >= n || input[pos] != '"' {
        proof {
            assert forall|t: Seq<char>| json_safe_str(t) implies !begins(
                input@,
                pos as int,
                render_string(t),
            ) by {
                if begins(input@, pos as int, render_string(t)) {
                    lemma_begins_index(input@, pos as int, render_string(t), 0);
                }
            }
        }
        return None;
    }
    let mut buf: Vec<char> = Vec::new();
    let mut k = pos + 1;
    while k < n
        invariant
            pos + 1 <= k <= n,
            n == input@.len(),
            pos < n,
            input@[pos as int] == '"',
            buf@ == input@.subrange(pos + 1, k as int),
            forall|m: int| pos + 1 <= m < k ==> input@[m] != '"' && input@[m] != '\\',
        decreases n - k,
    {
        let c = input[k];
        if c == '"' {
            let s = chars_to_string(&buf);
            proof {
                assert(render_string(buf@) =~= input@.subrange(pos as int, k + 1));
                assert(input@.subrange(pos as int, k + 1) =~= input@.subrange(
                    pos as int,
                    pos + render_string(buf@).len(),
                ));
                assert(begins(input@, pos as int, render_string(buf@)));
                assert forall|t: Seq<char>|
                    json_safe_str(t) && begins(input@, pos as int, render_string(t)) implies t
                    == buf@ by {
                    let e = pos + 1 + t.len();
                    lemma_begins_index(input@, pos as int, render_string(t), 1 + t.len() as int);
                    assert(input@[e] == '"');
                    if e < k {
                        assert(input@[e] != '"');
                        assert(false);
                    }
                    if e > k {
                        lemma_begins_index(input@, pos as int, render_string(t), k - pos);
                        assert(input@[k as int] == t[k - pos - 1]);
                        assert(t[k - pos - 1] == '"');
                        assert(false);
                    }
                    assert(e == k);
                    assert forall|m: int| 0 <= m < t.len() implies t[m] == buf@[m] by {
                        lemma_begins_index(input@, pos as int, render_string(t), 1 + m);
                    }
                    assert(t =~= buf@);
                }
            }
            return Some((s, k + 1));
        }
        if c == '\\' {
            proof {
                assert forall|t: Seq<char>| json_safe_str(t) implies !begins(
                    input@,
                    pos as int,
                    render_string(t),
                ) by {
                    if begins(input@, pos as int, render_string(t)) {
                        let e = pos + 1 + t.len();
                        lemma_begins_index(input@, pos as int, render_string(t), 1 + t.len() as int);
                        assert(input@[e] == '"');
                        if e < k {
                            assert(input@[e] != '"');
                        } else if e == k {
                            assert(input@[k as int] == '\\');
                        } else {
                            lemma_begins_index(input@, pos as int, render_string(t), k - pos);
                            assert(t[k - pos - 1] == '\\');
                        }
                        assert(false);
                    }
                }
            }
            return None;
        }
        buf.push(c);
        proof {
            assert(buf@ =~= input@.subrange(pos + 1, k + 1));
        }
        k = k + 1;
    }
    proof {
        assert forall|t: Seq<char>| json_safe_str(t) implies !begins(
            input@,
            pos as int,
            render_string(t),
        ) by {
            if begins(input@, pos as int, render_string(t)) {
                let e = pos + 1 + t.len();
                lemma_begins_index(input@, pos as int, render_string(t), 1 + t.len() as int);
                assert(input@[e] == '"');
                assert(e < n);
                assert(input@[e] != '"');
                assert(false);
            }
        }
    }
    None
}

/// A digit string with no leading zero denotes a positive number.
proof fn lemma_digits_val_pos(s: Seq<char>)
    requires
        forall|i: int| 0 <= i < s.len() ==> is_digit(#[trigger] s[i]),
        s.len() >= 1,
        s[0] != '0',
    ensures
        digits_val(s) >= 1,
    decreases s.len(),
{
    if s.len() == 1 {
        assert(digits_val(s.drop_last()) == 0);
    } else {
        let dl = s.drop_last();
        assert forall|i: int| 0 <= i < dl.len() implies is_digit(#[trigger] dl[i]) by {
            assert(dl[i] == s[i]);
        }
        assert(dl[0] == s[0]);
        lemma_digits_val_pos(dl);
        assert(digit_val(s.last()) >= 0);
    }
}

/// Rendering the number a digit string denotes gives back the string, when
/// the string has no leading zero.
proof fn lemma_render_of_digits(s: Seq<char>)
    requires
        forall|i: int| 0 <= i < s.len() ==> is_digit(#[trigger] s[i]),
        s.len() >= 1,
        s[0] != '0' || s.len() == 1,
    ensures
        render_u64(digits_val(s)) == s,
    decreases s.len(),
{
    lemma_digits_val_nonneg(s);
    let v = digits_val(s);
    if s.len() == 1 {
        assert(s.drop_last() =~= Seq::<char>::empty());
        assert(digits_val(Seq::<char>::empty()) == 0);
        assert(v == digit_val(s[0]));
        assert(render_u64(v) =~= s);
    } else {
        let dl = s.drop_last();
        let d = digit_val(s.last());
        assert forall|i: int| 0 <= i < dl.len() implies is_digit(#[trigger] dl[i]) by {
            assert(dl[i] == s[i]);
        }
        assert(dl[0] == s[0]);
        lemma_digits_val_pos(dl);
        assert(v == 10 * digits_val(dl) + d);
        assert(v >= 10);
        vstd::arithmetic::div_mod::lemma_fundamental_div_mod_converse(v, 10, digits_val(dl), d);
        lemma_render_of_digits(dl);
        assert(digit_char(digit_val(s.last())) == s.last());
        assert(render_u64(v) == dl.push(s.last()));
        assert(dl.push(s.last()) =~= s);
    }
}

fn char_digit(c: char) -> (r: Option<u64>)
    ensures
        match r {
            Some(d) => is_digit(c) && d < 10 && d as int == digit_val(c),
            None => !is_digit(c),
        },
{
    if c == '0' {
        Some(0)
    } else if c == '1' {
        Some(1)
    } else if c == '2' {
        Some(2)
    } else if c == '3' {
        Some(3)
    } else if c == '4' {
        Some(4)
    } else if c == '5' {
        Some(5)
    } else if c == '6' {
        Some(6)
    } else if c == '7' {
        Some(7)
    } else if c == '8' {
        Some(8)
    } else if c == '9' {
        Some(9)
    } else {
        None
    }
}

/// Whether a decimal rendering ending at `e` is maximal there: the document
/// ends or goes on with something other than a digit.
pub open spec fn num_end_ok(s: Seq<char>, e: int) -> bool {
    e == s.len() || !is_digit(s[e])
}

/// Parse the canonical decimal rendering of a non-negative number: digits up
/// to the first non-digit, rejecting leading zeros and values beyond `u64`.
fn parse_u64(input: &Vec<char>, pos: usize) -> (r: Option<(u64, usize)>)
    ensures
        match r {
            Some(p) => {
                &&& begins(input@, pos as int, render_u64(p.0 as int))
                &&& p.1 == pos + render_u64(p.0 as int).len()
                &&& num_end_ok(input@, p.1 as int)
                &&& forall|m: int|
                    0 <= m <= u64::MAX && begins(input@, pos as int, render_u64(m)) && num_end_ok(
                        input@,
                        pos + render_u64(m).len(),
                    ) ==> m == p.0 as int
            },
            None => forall|m: int|
                0 <= m <= u64::MAX ==> !(begins(input@, pos as int, render_u64(m)) && num_end_ok(
                    input@,
                    pos + render_u64(m).len(),
                )),
        },
{
    let n = input.len();
    if pos >= n {
        proof {
            assert forall|m: int| 0 <= m <= u64::MAX implies !begins(
                input@,
                pos as int,
                render_u64(m),
            ) by {
                lemma_render_u64_digits(m);
            }
        }
        return None;
    }
    let d0 = match char_digit(input[pos]) {
        Some(d) => d,
        None => {
            proof {
                assert forall|m: int| 0 <= m <= u64::MAX implies !begins(
                    input@,
                    pos as int,
                    render_u64(m),
                ) by {
                    lemma_render_u64_digits(m);
                    if begins(input@, pos as int, render_u64(m)) {
                        lemma_begins_index(input@, pos as int, render_u64(m), 0);
                    }
                }
            }
            return None;
        },
    };
    if d0 == 0 {
        assert(input@[pos as int] == '0');
        let next_digit = if pos + 1 < n {
            match char_digit(input[pos + 1]) {
                Some(_) => true,
                None => false,
            }
        } else {
            false
        };
        proof {
            assert(render_u64(0) =~= input@.subrange(pos as int, pos + 1));
            assert forall|m: int|
                1 <= m <= u64::MAX && begins(input@, pos as int, render_u64(m)) implies false by {
                lemma_render_u64_digits(m);
                lemma_begins_index(input@, pos as int, render_u64(m), 0);
            }
        }
        if next_digit {
            return None;
        }
        return Some((0, pos + 1));
    }
    let mut val: u64 = d0;
    let mut k = pos + 1;
    proof {
        let s1 = input@.subrange(pos as int, pos + 1);
        assert(s1.len() == 1);
        assert(s1[0] == input@[pos as int]);
        assert(s1.drop_last() =~= Seq::<char>::empty());
        assert(digits_val(Seq::<char>::empty()) == 0);
        assert(digits_val(s1) == digit_val(input@[pos as int]));
    }
    while k < n
        invariant
            pos < k <= n,
            n == input@.len(),
            forall|m: int| pos <= m < k ==> is_digit(#[trigger] input@[m]),
            input@[pos as int] != '0',
            val as int == digits_val(input@.subrange(pos as int, k as int)),
        ensures
            pos < k <= n,
            n == input@.len(),
            forall|m: int| pos <= m < k ==> is_digit(#[trigger] input@[m]),
            input@[pos as int] != '0',
            val as int == digits_val(input@.subrange(pos as int, k as int)),
            num_end_ok(input@, k as int),
        decreases n - k,
    {
        let d = match char_digit(input[k]) {
            None => {
                break;
            },
            Some(d) => d,
        };
        if val > (u64::MAX - d) / 10 {
            proof {
                let run = input@.subrange(pos as int, k + 1);
                assert(run.drop_last() =~= input@.subrange(pos as int, k as int));
                assert(run.last() == input@[k as int]);
                assert(digits_val(run) == 10 * (val as int) + digit_val(input@[k as int]));
                vstd::arithmetic::div_mod::lemma_fundamental_div_mod(
                    u64::MAX - d,
                    10,
                );
                assert(10 * (val as int) + d > u64::MAX);
                assert forall|m: int|
                    0 <= m <= u64::MAX && begins(input@, pos as int, render_u64(m)) && num_end_ok(
                        input@,
                        pos + render_u64(m).len(),
                    ) implies false by {
                    lemma_render_u64_digits(m);
                    let rm = render_u64(m);
                    let e = pos + rm.len();
                    if e <= k {
                        assert(is_digit(input@[e]));
                    } else {
                        assert(e >= k + 1);
                        assert forall|j: int| 0 <= j < k + 1 - pos implies rm.take(k + 1 - pos)[j]
                            == run[j] by {
                            lemma_begins_index(input@, pos as int, rm, j);
                        }
                        assert(rm.take(k + 1 - pos) =~= run);
                        lemma_digits_val_prefix_le(rm, k + 1 - pos);
                        assert(m >= digits_val(run));
                    }
                }
            }
            return None;
        }
        val = val * 10 + d;
        proof {
            let run = input@.subrange(pos as int, k + 1);
            assert(run.drop_last() =~= input@.subrange(pos as int, k as int));
            assert(run.last() == input@[k as int]);
        }
        k = k + 1;
    }
    proof {
        let s = input@.subrange(pos as int, k as int);
        assert(s[0] == input@[pos as int]);
        assert forall|i: int| 0 <= i < s.len() implies is_digit(#[trigger] s[i]) by {
            assert(s[i] == input@[pos + i]);
        }
        lemma_render_of_digits(s);
        assert(begins(input@, pos as int, render_u64(val as int)));
        assert forall|m: int|
            0 <= m <= u64::MAX && begins(input@, pos as int, render_u64(m)) && num_end_ok(
                input@,
                pos + render_u64(m).len(),
            ) implies m == val as int by {
            lemma_render_u64_digits(m);
            let rm = render_u64(m);
            let e = pos + rm.len();
            if e < k {
                assert(is_digit(input@[e]));
                assert(false);
            }
            if e > k {
                lemma_begins_index(input@, pos as int, rm, k - pos);
                assert(input@[k as int] == rm[k - pos]);
                assert(is_digit(input@[k as int]));
                assert(k < n);
                assert(false);
            }
            assert(e == k);
            assert forall|j: int| 0 <= j < s.len() implies rm[j] == s[j] by {
                lemma_begins_index(input@, pos as int, rm, j);
            }
            assert(rm =~= s);
        }
    }
    Some((val, k))
}

/// Parse the canonical decimal rendering of a signed number.
fn parse_i64(input: &Vec<char>, pos: usize) -> (r: Option<(i64, usize)>)
    ensures
        match r {
            Some(p) => {
                &&& begins(input@, pos as int, render_i64(p.0 as int))
                &&& p.1 == pos + render_i64(p.0 as int).len()
                &&& num_end_ok(input@, p.1 as int)
                &&& forall|w: int|
                    i64::MIN <= w <= i64::MAX && begins(input@, pos as int, render_i64(w))
                        && num_end_ok(input@, pos + render_i64(w).len()) ==> w == p.0 as int
            },
            None => forall|w: int|
                i64::MIN <= w <= i64::MAX ==> !(begins(input@, pos as int, render_i64(w))
                    && num_end_ok(input@, pos + render_i64(w).len())),
        },
{
    let n = input.len();
    if pos < n && input[pos] == '-' {
        let r1 = parse_u64(input, pos + 1);
        proof {
            assert forall|w: int|
                0 <= w <= i64::MAX && begins(input@, pos as int, render_i64(w)) implies false by {
                lemma_render_u64_digits(w);
                lemma_begins_index(input@, pos as int, render_u64(w), 0);
            }
            assert forall|w: int|
                i64::MIN <= w < 0 && begins(input@, pos as int, render_i64(w)) implies begins(
                input@,
                pos + 1,
                render_u64(-w),
            ) by {
                lemma_begins_concat(input@, pos as int, seq!['-'], render_u64(-w));
            }
        }
        match r1 {
            Some(p) => {
                let mag = p.0;
                let j = p.1;
                if 1 <= mag && mag <= 9223372036854775808u64 {
                    let v: i64 = (-(mag as i128)) as i64;
                    proof {
                        assert(v as int == -(mag as int));
                        assert(input@.subrange(pos as int, pos + 1) =~= seq!['-']);
                        assert(begins(input@, pos as int, seq!['-']));
                        lemma_begins_concat(
                            input@,
                            pos as int,
                            seq!['-'],
                            render_u64(mag as int),
                        );
                        assert(begins(input@, pos as int, render_i64(v as int)));
                    }
                    return Some((v, j));
                } else {
                    return None;
                }
            },
            None => {
                return None;
            },
        }
    }
    let r1 = parse_u64(input, pos);
    proof {
        assert forall|w: int|
            i64::MIN <= w < 0 && begins(input@, pos as int, render_i64(w)) implies false by {
            lemma_begins_index(input@, pos as int, render_i64(w), 0);
            assert(input@[pos as int] == '-');
        }
    }
    match r1 {
        Some(p) => {
            if p.0 <= 9223372036854775807u64 {
                Some((p.0 as i64, p.1))
            } else {
                None
            }
        },
        None => None,
    }
}

/// A step's rendering stands at `i` exactly when its seven parts stand in
/// order from `i`.
proof fn lemma_tx_parts(s: Seq<char>, i: int, t: TxModel)
    requires
        0 <= i,
    ensures
        ({
            let p1 = i + "{\"pushed\":"@.len();
            let p2 = p1 + render_bool(t.pushed).len();
            let p3 = p2 + ",\"txHex\":"@.len();
            let p4 = p3 + render_string(t.tx_hex).len();
            let p5 = p4 + ",\"txId\":"@.len();
            let p6 = p5 + render_opt_id(t.tx_id).len();
            &&& i + render_tx(t).len() == p6 + "}"@.len()
            &&& begins(s, i, render_tx(t)) <==> {
                &&& begins(s, i, "{\"pushed\":"@)
                &&& begins(s, p1, render_bool(t.pushed))
                &&& begins(s, p2, ",\"txHex\":"@)
                &&& begins(s, p3, render_string(t.tx_hex))
                &&& begins(s, p4, ",\"txId\":"@)
                &&& begins(s, p5, render_opt_id(t.tx_id))
                &&& begins(s, p6, "}"@)
            }
        }),
{
    let x1 = "{\"pushed\":"@ + render_bool(t.pushed);
    let x2 = x1 + ",\"txHex\":"@;
    let x3 = x2 + render_string(t.tx_hex);
    let x4 = x3 + ",\"txId\":"@;
    let x5 = x4 + render_opt_id(t.tx_id);
    assert(render_tx(t) == x5 + "}"@);
    lemma_begins_concat(s, i, x5, "}"@);
    lemma_begins_concat(s, i, x4, render_opt_id(t.tx_id));
    lemma_begins_concat(s, i, x3, ",\"txId\":"@);
    lemma_begins_concat(s, i, x2, render_string(t.tx_hex));
    lemma_begins_concat(s, i, x1, ",\"txHex\":"@);
    lemma_begins_concat(s, i, "{\"pushed\":"@, render_bool(t.pushed));
}

/// Parse one stored step object.
fn parse_tx(input: &Vec<char>, pos: usize) -> (r: Option<(Tx, usize)>)
    ensures
        match r {
            Some(p) => {
                &&& tx_renderable(tx_model(p.0))
                &&& begins(input@, pos as int, render_tx(tx_model(p.0)))
                &&& p.1 == pos + render_tx(tx_model(p.0)).len()
                &&& forall|t2: TxModel|
                    tx_renderable(t2) && begins(input@, pos as int, render_tx(t2)) ==> t2
                        == tx_model(p.0)
            },
            None => forall|t2: TxModel|
                tx_renderable(t2) ==> !begins(input@, pos as int, render_tx(t2)),
        },
{
    let j1 = match match_lit(input, pos, "{\"pushed\":") {
        Some(j) => j,
        None => {
            proof {
                assert forall|t2: TxModel|
                    tx_renderable(t2) && begins(input@, pos as int, render_tx(t2)) implies false by {
                    lemma_tx_parts(input@, pos as int, t2);
                }
            }
            return None;
        },
    };
    let bj = match parse_bool(input, j1) {
        Some(p) => p,
        None => {
            proof {
                assert forall|t2: TxModel|
                    tx_renderable(t2) && begins(input@, pos as int, render_tx(t2)) implies false by {
                    lemma_tx_parts(input@, pos as int, t2);
                }
            }
            return None;
        },
    };
    let b = bj.0;
    let j2 = bj.1;
    let j3 = match match_lit(input, j2, ",\"txHex\":") {
        Some(j) => j,
        None => {
            proof {
                assert forall|t2: TxModel|
                    tx_renderable(t2) && begins(input@, pos as int, render_tx(t2)) implies false by {
                    lemma_tx_parts(input@, pos as int, t2);
                    assert(t2.pushed == b);
                }
            }
            return None;
        },
    };
    let hj = match parse_string(input, j3) {
        Some(p) => p,
        None => {
            proof {
                assert forall|t2: TxModel|
                    tx_renderable(t2) && begins(input@, pos as int, render_tx(t2)) implies false by {
                    lemma_tx_parts(input@, pos as int, t2);
                    assert(t2.pushed == b);
                }
            }
            return None;
        },
    };
    let hex = hj.0;
    let j4 = hj.1;
    let j5 = match match_lit(input, j4, ",\"txId\":") {
        Some(j) => j,
        None => {
            proof {
                assert forall|t2: TxModel|
                    tx_renderable(t2) && begins(input@, pos as int, render_tx(t2)) implies false by {
                    lemma_tx_parts(input@, pos as int, t2);
                    assert(t2.pushed == b);
                    assert(t2.tx_hex == hex@);
                }
            }
            return None;
        },
    };
    let idj: (Option<String>, usize) = match match_lit(input, j5, "null") {
        Some(j) => (None, j),
        None => {
            match parse_string(input, j5) {
                Some(p) => (Some(p.0), p.1),
                None => {
                    proof {
                        assert forall|t2: TxModel|
                            tx_renderable(t2) && begins(
                            input@,
                            pos as int,
                            render_tx(t2),
                        ) implies false by {
                            lemma_tx_parts(input@, pos as int, t2);
                            assert(t2.pushed == b);
                            assert(t2.tx_hex == hex@);
                            match t2.tx_id {
                                None => {
                                    assert(begins(input@, j5 as int, "null"@));
                                },
                                Some(id) => {
                                    assert(begins(input@, j5 as int, render_string(id)));
                                },
                            }
                        }
                    }
                    return None;
                },
            }
        },
    };
    let tid = idj.0;
    let j6 = idj.1;
    let j7 = match match_lit(input, j6, "}") {
        Some(j) => j,
        None => {
            proof {
                assert forall|t2: TxModel|
                    tx_renderable(t2) && begins(input@, pos as int, render_tx(t2)) implies false by {
                    lemma_tx_parts(input@, pos as int, t2);
                    assert(t2.pushed == b);
                    assert(t2.tx_hex == hex@);
                    lemma_opt_id_match(input@, j5 as int, t2.tx_id, tx_id_view(tid));
                }
            }
            return None;
        },
    };
    let t = Tx { pushed: b, tx_hex: hex, tx_id: tid };
    proof {
        let tm = tx_model(t);
        lemma_tx_parts(input@, pos as int, tm);
        assert(begins(input@, pos as int, render_tx(tm)));
        assert forall|t2: TxModel|
            tx_renderable(t2) && begins(input@, pos as int, render_tx(t2)) implies t2 == tm by {
            lemma_tx_parts(input@, pos as int, t2);
            assert(t2.pushed == b);
            assert(t2.tx_hex == tm.tx_hex);
            lemma_opt_id_match(input@, j5 as int, t2.tx_id, tm.tx_id);
        }
    }
    Some((t, j7))
}

pub open spec fn tx_id_view(o: Option<String>) -> Option<Seq<char>> {
    match o {
        Some(id) => Some(id@),
        None => None,
    }
}

/// Two stored identifier fields standing at the same position are the same
/// field: `null` and a string cannot coincide, and two strings are equal.
proof fn lemma_opt_id_match(s: Seq<char>, i: int, o1: Option<Seq<char>>, o2: Option<Seq<char>>)
    requires
        begins(s, i, render_opt_id(o1)),
        begins(s, i, render_opt_id(o2)),
        match o1 {
            Some(id) => json_safe_str(id),
            None => true,
        },
        match o2 {
            Some(id) => json_safe_str(id),
            None => true,
        },
    ensures
        o1 == o2,
{
    reveal_strlit("null");
    match (o1, o2) {
        (Option::None, Option::None) => {},
        (Option::None, Option::Some(id2)) => {
            lemma_begins_index(s, i, "null"@, 0);
            lemma_begins_index(s, i, render_string(id2), 0);
            assert(render_string(id2)[0] == '"');
            assert(false);
        },
        (Option::Some(id1), Option::None) => {
            lemma_begins_index(s, i, "null"@, 0);
            lemma_begins_index(s, i, render_string(id1), 0);
            assert(render_string(id1)[0] == '"');
            assert(false);
        },
        (Option::Some(id1), Option::Some(id2)) => {
            lemma_render_string_match(s, i, id1, id2);
        },
    }
}

/// Two stored strings standing at the same position hold the same
/// characters.
proof fn lemma_render_string_match(s: Seq<char>, i: int, t1: Seq<char>, t2: Seq<char>)
    requires
        begins(s, i, render_string(t1)),
        begins(s, i, render_string(t2)),
        json_safe_str(t1),
        json_safe_str(t2),
    ensures
        t1 == t2,
{
    if t1.len() < t2.len() {
        lemma_begins_index(s, i, render_string(t1), 1 + t1.len() as int);
        lemma_begins_index(s, i, render_string(t2), 1 + t1.len() as int);
        assert(render_string(t2)[1 + t1.len() as int] == t2[t1.len() as int]);
        assert(false);
    }
    if t2.len() < t1.len() {
        lemma_begins_index(s, i, render_string(t1), 1 + t2.len() as int);
        lemma_begins_index(s, i, render_string(t2), 1 + t2.len() as int);
        assert(render_string(t1)[1 + t2.len() as int] == t1[t2.len() as int]);
        assert(false);
    }
    assert forall|m: int| 0 <= m < t1.len() implies t1[m] == t2[m] by {
        lemma_begins_index(s, i, render_string(t1), 1 + m);
        lemma_begins_index(s, i, render_string(t2), 1 + m);
    }
    assert(t1 =~= t2);
}

pub open spec fn txs_renderable(ts: Seq<TxModel>) -> bool {
    forall|i: int| 0 <= i < ts.len() ==> tx_renderable(#[trigger] ts[i])
}

/// Whether a rendered list ending at `e` is maximal there: the document ends
/// or goes on with something other than a comma.
pub open spec fn list_end_ok(s: Seq<char>, e: int) -> bool {
    e == s.len() || s[e] != ','
}

/// Parse a non-empty comma-separated list of step objects.
fn parse_txs1(input: &Vec<char>, pos: usize) -> (r: Option<(Vec<Tx>, usize)>)
    ensures
        match r {
            Some(p) => {
                &&& txs_model(p.0@).len() >= 1
                &&& txs_renderable(txs_model(p.0@))
                &&& begins(input@, pos as int, render_txs(txs_model(p.0@)))
                &&& p.1 == pos + render_txs(txs_model(p.0@)).len()
                &&& forall|ts2: Seq<TxModel>|
                    ts2.len() >= 1 && txs_renderable(ts2) && begins(
                        input@,
                        pos as int,
                        render_txs(ts2),
                    ) && list_end_ok(input@, pos + render_txs(ts2).len()) ==> ts2 == txs_model(
                        p.0@,
                    )
            },
            None => forall|ts2: Seq<TxModel>|
                ts2.len() >= 1 && txs_renderable(ts2) && begins(
                    input@,
                    pos as int,
                    render_txs(ts2),
                ) && list_end_ok(input@, pos + render_txs(ts2).len()) ==> false,
        },
    decreases input@.len() - pos,
{
    let r1 = match parse_tx(input, pos) {
        Some(p) => p,
        None => {
            proof {
                assert forall|ts2: Seq<TxModel>|
                    ts2.len() >= 1 && txs_renderable(ts2) && begins(
                        input@,
                        pos as int,
                        render_txs(ts2),
                    ) implies false by {
                    if ts2.len() > 1 {
                        lemma_begins_concat(
                            input@,
                            pos as int,
                            render_tx(ts2[0]) + seq![','],
                            render_txs(ts2.skip(1)),
                        );
                        lemma_begins_concat(input@, pos as int, render_tx(ts2[0]), seq![',']);
                    }
                    assert(begins(input@, pos as int, render_tx(ts2[0])));
                    assert(tx_renderable(ts2[0]));
                }
            }
            return None;
        },
    };
    let t = r1.0;
    let j = r1.1;
    let has_comma = j < input.len() && input[j] == ',';
    if has_comma {
        let jn = j + 1;
        let r2 = match parse_txs1(input, jn) {
            Some(p) => p,
            None => {
                proof {
                    assert forall|ts2: Seq<TxModel>|
                        ts2.len() >= 1 && txs_renderable(ts2) && begins(
                            input@,
                            pos as int,
                            render_txs(ts2),
                        ) && list_end_ok(input@, pos + render_txs(ts2).len()) implies false by {
                        assert(tx_renderable(ts2[0]));
                        if ts2.len() == 1 {
                            assert(begins(input@, pos as int, render_tx(ts2[0])));
                            assert(ts2[0] == tx_model(t));
                            assert(pos + render_txs(ts2).len() == j);
                            assert(input@[j as int] == ',');
                        } else {
                            lemma_begins_concat(
                                input@,
                                pos as int,
                                render_tx(ts2[0]) + seq![','],
                                render_txs(ts2.skip(1)),
                            );
                            lemma_begins_concat(
                                input@,
                                pos as int,
                                render_tx(ts2[0]),
                                seq![','],
                            );
                            assert(begins(input@, pos as int, render_tx(ts2[0])));
                            assert(ts2[0] == tx_model(t));
                            let rest2 = ts2.skip(1);
                            assert forall|i: int| 0 <= i < rest2.len() implies tx_renderable(
                                #[trigger] rest2[i],
                            ) by {
                                assert(rest2[i] == ts2[i + 1]);
                            }
                            assert(txs_renderable(rest2));
                            assert(begins(input@, jn as int, render_txs(rest2)));
                            assert(list_end_ok(
                                input@,
                                jn + render_txs(rest2).len(),
                            ));
                            assert(rest2.len() >= 1);
                        }
                    }
                }
                return None;
            },
        };
        let mut rest = r2.0;
        let j2 = r2.1;
        let ghost restm = txs_model(rest@);
        let mut ts: Vec<Tx> = Vec::new();
        ts.push(t);
        ts.append(&mut rest);
        proof {
            let m = txs_model(ts@);
            assert(m =~= seq![tx_model(t)] + restm);
            assert(m.len() >= 2);
            assert(m[0] == tx_model(t));
            assert(m.skip(1) =~= restm);
            assert(input@.subrange(j as int, j + 1) =~= seq![',']);
            assert(begins(input@, j as int, seq![',']));
            lemma_begins_concat(input@, pos as int, render_tx(m[0]), seq![',']);
            lemma_begins_concat(
                input@,
                pos as int,
                render_tx(m[0]) + seq![','],
                render_txs(m.skip(1)),
            );
            assert(begins(input@, pos as int, render_txs(m)));
            assert forall|ts2: Seq<TxModel>|
                ts2.len() >= 1 && txs_renderable(ts2) && begins(
                    input@,
                    pos as int,
                    render_txs(ts2),
                ) && list_end_ok(input@, pos + render_txs(ts2).len()) implies ts2 == m by {
                assert(tx_renderable(ts2[0]));
                if ts2.len() == 1 {
                    assert(begins(input@, pos as int, render_tx(ts2[0])));
                    assert(ts2[0] == tx_model(t));
                    assert(pos + render_txs(ts2).len() == j);
                    assert(input@[j as int] == ',');
                    assert(false);
                } else {
                    lemma_begins_concat(
                        input@,
                        pos as int,
                        render_tx(ts2[0]) + seq![','],
                        render_txs(ts2.skip(1)),
                    );
                    lemma_begins_concat(input@, pos as int, render_tx(ts2[0]), seq![',']);
                    assert(begins(input@, pos as int, render_tx(ts2[0])));
                    assert(ts2[0] == tx_model(t));
                    let rest2 = ts2.skip(1);
                    assert forall|i: int| 0 <= i < rest2.len() implies tx_renderable(
                        #[trigger] rest2[i],
                    ) by {
                        assert(rest2[i] == ts2[i + 1]);
                    }
                    assert(txs_renderable(rest2));
                    assert(begins(input@, jn as int, render_txs(rest2)));
                    assert(list_end_ok(input@, jn + render_txs(rest2).len()));
                    assert(rest2.len() >= 1);
                    assert(rest2 == restm);
                    assert(ts2 =~= seq![ts2[0]] + rest2);
                    assert(m =~= seq![tx_model(t)] + restm);
                }
            }
        }
        Some((ts, j2))
    } else {
        let mut ts: Vec<Tx> = Vec::new();
        ts.push(t);
        proof {
            let m = txs_model(ts@);
            assert(m =~= seq![tx_model(t)]);
            assert(m.len() == 1 && m[0] == tx_model(t));
            assert(render_txs(m) == render_tx(tx_model(t)));
            assert forall|ts2: Seq<TxModel>|
                ts2.len() >= 1 && txs_renderable(ts2) && begins(
                    input@,
                    pos as int,
                    render_txs(ts2),
                ) && list_end_ok(input@, pos + render_txs(ts2).len()) implies ts2 == m by {
                assert(tx_renderable(ts2[0]));
                if ts2.len() > 1 {
                    lemma_begins_concat(
                        input@,
                        pos as int,
                        render_tx(ts2[0]) + seq![','],
                        render_txs(ts2.skip(1)),
                    );
                    lemma_begins_concat(input@, pos as int, render_tx(ts2[0]), seq![',']);
                    assert(begins(input@, pos as int, render_tx(ts2[0])));
                    assert(ts2[0] == tx_model(t));
                    lemma_begins_index(
                        input@,
                        pos + render_tx(ts2[0]).len(),
                        seq![','],
                        0,
                    );
                    assert(input@[j as int] == ',');
                    assert(j < input@.len());
                    assert(false);
                }
                assert(begins(input@, pos as int, render_tx(ts2[0])));
                assert(ts2[0] == tx_model(t));
                assert(ts2 =~= m);
            }
        }
        Some((ts, j))
    }
}

/// A chain's rendering stands at `i` exactly when its five parts stand in
/// order from `i`.
proof fn lemma_chain_parts(s: Seq<char>, i: int, c: ChainModel)
    requires
        0 <= i,
    ensures
        ({
            let p1 = i + "{\"inscriptionNumber\":"@.len();
            let p2 = p1 + render_i64(c.number).len();
            let p3 = p2 + ",\"txs\":["@.len();
            let p4 = p3 + render_txs(c.txs).len();
            &&& i + render_chain(c).len() == p4 + "]}"@.len()
            &&& begins(s, i, render_chain(c)) <==> {
                &&& begins(s, i, "{\"inscriptionNumber\":"@)
                &&& begins(s, p1, render_i64(c.number))
                &&& begins(s, p2, ",\"txs\":["@)
                &&& begins(s, p3, render_txs(c.txs))
                &&& begins(s, p4, "]}"@)
            }
        }),
{
    let x1 = "{\"inscriptionNumber\":"@ + render_i64(c.number);
    let x2 = x1 + ",\"txs\":["@;
    let x3 = x2 + render_txs(c.txs);
    assert(render_chain(c) == x3 + "]}"@);
    lemma_begins_concat(s, i, x3, "]}"@);
    lemma_begins_concat(s, i, x2, render_txs(c.txs));
    lemma_begins_concat(s, i, x1, ",\"txs\":["@);
    lemma_begins_concat(s, i, "{\"inscriptionNumber\":"@, render_i64(c.number));
}

/// Parse one stored chain object.
fn parse_chain(input: &Vec<char>, pos: usize) -> (r: Option<(Inscription, usize)>)
    ensures
        match r {
            Some(p) => {
                &&& chain_renderable(chain_model(p.0))
                &&& begins(input@, pos as int, render_chain(chain_model(p.0)))
                &&& p.1 == pos + render_chain(chain_model(p.0)).len()
                &&& forall|c2: ChainModel|
                    chain_renderable(c2) && begins(input@, pos as int, render_chain(c2)) ==> c2
                        == chain_model(p.0)
            },
            None => forall|c2: ChainModel|
                chain_renderable(c2) ==> !begins(input@, pos as int, render_chain(c2)),
        },
{
    let j1 = match match_lit(input, pos, "{\"inscriptionNumber\":") {
        Some(j) => j,
        None => {
            proof {
                assert forall|c2: ChainModel|
                    chain_renderable(c2) && begins(
                        input@,
                        pos as int,
                        render_chain(c2),
                    ) implies false by {
                    lemma_chain_parts(input@, pos as int, c2);
                }
            }
            return None;
        },
    };
    let r1 = match parse_i64(input, j1) {
        Some(p) => p,
        None => {
            proof {
                reveal_strlit(",\"txs\":[");
                assert forall|c2: ChainModel|
                    chain_renderable(c2) && begins(
                        input@,
                        pos as int,
                        render_chain(c2),
                    ) implies false by {
                    lemma_chain_parts(input@, pos as int, c2);
                    let p2x = j1 + render_i64(c2.number).len();
                    lemma_begins_index(input@, p2x, ",\"txs\":["@, 0);
                    assert(input@[p2x] == ',');
                    assert(num_end_ok(input@, p2x));
                    assert(begins(input@, j1 as int, render_i64(c2.number)));
                }
            }
            return None;
        },
    };
    let num = r1.0;
    let j2 = r1.1;
    let j3 = match match_lit(input, j2, ",\"txs\":[") {
        Some(j) => j,
        None => {
            proof {
                reveal_strlit(",\"txs\":[");
                assert forall|c2: ChainModel|
                    chain_renderable(c2) && begins(
                        input@,
                        pos as int,
                        render_chain(c2),
                    ) implies false by {
                    lemma_chain_parts(input@, pos as int, c2);
                    let p2x = j1 + render_i64(c2.number).len();
                    lemma_begins_index(input@, p2x, ",\"txs\":["@, 0);
                    assert(input@[p2x] == ',');
                    assert(num_end_ok(input@, p2x));
                    assert(begins(input@, j1 as int, render_i64(c2.number)));
                    assert(c2.number == num as int);
                    assert(begins(input@, j2 as int, ",\"txs\":["@));
                }
            }
            return None;
        },
    };
    match match_lit(input, j3, "]}") {
        Some(j4) => {
            let insc = Inscription { inscription_number: num, txs: Vec::new() };
            proof {
                reveal_strlit("{\"pushed\":");
                reveal_strlit("]}");
                reveal_strlit(",\"txs\":[");
                let cm = chain_model(insc);
                assert(cm.number == num as int);
                assert(cm.txs =~= Seq::<TxModel>::empty());
                assert(render_txs(cm.txs) == Seq::<char>::empty());
                assert(input@.subrange(j3 as int, j3 as int) =~= Seq::<char>::empty());
                assert(begins(input@, j3 as int, render_txs(cm.txs)));
                lemma_chain_parts(input@, pos as int, cm);
                assert(begins(input@, pos as int, render_chain(cm)));
                assert forall|c2: ChainModel|
                    chain_renderable(c2) && begins(
                        input@,
                        pos as int,
                        render_chain(c2),
                    ) implies c2 == cm by {
                    lemma_chain_parts(input@, pos as int, c2);
                    let p2x = j1 + render_i64(c2.number).len();
                    lemma_begins_index(input@, p2x, ",\"txs\":["@, 0);
                    assert(input@[p2x] == ',');
                    assert(num_end_ok(input@, p2x));
                    assert(begins(input@, j1 as int, render_i64(c2.number)));
                    assert(c2.number == num as int);
                    if c2.txs.len() >= 1 {
                        assert(begins(input@, j3 as int, render_txs(c2.txs)));
                        if c2.txs.len() > 1 {
                            lemma_begins_concat(
                                input@,
                                j3 as int,
                                render_tx(c2.txs[0]) + seq![','],
                                render_txs(c2.txs.skip(1)),
                            );
                            lemma_begins_concat(
                                input@,
                                j3 as int,
                                render_tx(c2.txs[0]),
                                seq![','],
                            );
                        }
                        assert(begins(input@, j3 as int, render_tx(c2.txs[0])));
                        lemma_tx_parts(input@, j3 as int, c2.txs[0]);
                        lemma_begins_index(input@, j3 as int, "{\"pushed\":"@, 0);
                        lemma_begins_index(input@, j3 as int, "]}"@, 0);
                        assert(false);
                    }
                    assert(c2.txs =~= cm.txs);
                }
            }
            Some((insc, j4))
        },
        None => {
            let r2 = match parse_txs1(input, j3) {
                Some(p) => p,
                None => {
                    proof {
                        reveal_strlit("]}");
                        reveal_strlit(",\"txs\":[");
                        assert forall|c2: ChainModel|
                            chain_renderable(c2) && begins(
                                input@,
                                pos as int,
                                render_chain(c2),
                            ) implies false by {
                            lemma_chain_parts(input@, pos as int, c2);
                            let p2x = j1 + render_i64(c2.number).len();
                            lemma_begins_index(input@, p2x, ",\"txs\":["@, 0);
                            assert(input@[p2x] == ',');
                            assert(num_end_ok(input@, p2x));
                            assert(begins(input@, j1 as int, render_i64(c2.number)));
                            assert(c2.number == num as int);
                            if c2.txs.len() == 0 {
                                assert(render_txs(c2.txs) == Seq::<char>::empty());
                                assert(begins(input@, j3 as int, "]}"@));
                            } else {
                                assert(begins(input@, j3 as int, render_txs(c2.txs)));
                                let p4x = j3 + render_txs(c2.txs).len();
                                lemma_begins_index(input@, p4x, "]}"@, 0);
                                assert(input@[p4x] == ']');
                                assert(list_end_ok(input@, p4x));
                                assert(txs_renderable(c2.txs));
                                assert(c2.txs.len() >= 1);
                            }
                        }
                    }
                    return None;
                },
            };
            let ts = r2.0;
            let j4 = r2.1;
            let j5 = match match_lit(input, j4, "]}") {
                Some(j) => j,
                None => {
                    proof {
                        reveal_strlit("]}");
                        reveal_strlit(",\"txs\":[");
                        assert forall|c2: ChainModel|
                            chain_renderable(c2) && begins(
                                input@,
                                pos as int,
                                render_chain(c2),
                            ) implies false by {
                            lemma_chain_parts(input@, pos as int, c2);
                            let p2x = j1 + render_i64(c2.number).len();
                            lemma_begins_index(input@, p2x, ",\"txs\":["@, 0);
                            assert(input@[p2x] == ',');
                            assert(num_end_ok(input@, p2x));
                            assert(begins(input@, j1 as int, render_i64(c2.number)));
                            assert(c2.number == num as int);
                            if c2.txs.len() == 0 {
                                assert(render_txs(c2.txs) == Seq::<char>::empty());
                                assert(begins(input@, j3 as int, "]}"@));
                                assert(false);
                            }
                            assert(begins(input@, j3 as int, render_txs(c2.txs)));
                            let p4x = j3 + render_txs(c2.txs).len();
                            lemma_begins_index(input@, p4x, "]}"@, 0);
                            assert(input@[p4x] == ']');
                            assert(list_end_ok(input@, p4x));
                            assert(txs_renderable(c2.txs));
                            assert(c2.txs == txs_model(ts@));
                            assert(begins(input@, j4 as int, "]}"@));
                        }
                    }
                    return None;
                },
            };
            let insc = Inscription { inscription_number: num, txs: ts };
            proof {
                reveal_strlit("]}");
                reveal_strlit(",\"txs\":[");
                let cm = chain_model(insc);
                assert(cm.number == num as int);
                assert(cm.txs == txs_model(insc.txs@));
                lemma_chain_parts(input@, pos as int, cm);
                assert(begins(input@, pos as int, render_chain(cm)));
                assert forall|c2: ChainModel|
                    chain_renderable(c2) && begins(
                        input@,
                        pos as int,
                        render_chain(c2),
                    ) implies c2 == cm by {
                    lemma_chain_parts(input@, pos as int, c2);
                    let p2x = j1 + render_i64(c2.number).len();
                    lemma_begins_index(input@, p2x, ",\"txs\":["@, 0);
                    assert(input@[p2x] == ',');
                    assert(num_end_ok(input@, p2x));
                    assert(begins(input@, j1 as int, render_i64(c2.number)));
                    assert(c2.number == num as int);
                    if c2.txs.len() == 0 {
                        assert(render_txs(c2.txs) == Seq::<char>::empty());
                        assert(begins(input@, j3 as int, "]}"@));
                        assert(false);
                    }
                    assert(begins(input@, j3 as int, render_txs(c2.txs)));
                    let p4x = j3 + render_txs(c2.txs).len();
                    lemma_begins_index(input@, p4x, "]}"@, 0);
                    assert(input@[p4x] == ']');
                    assert(list_end_ok(input@, p4x));
                    assert(txs_renderable(c2.txs));
                    assert(c2.txs == txs_model(ts@));
                }
            }
            Some((insc, j5))
        },
    }
}

/// Parse a non-empty comma-separated list of chain objects.
fn parse_chains1(input: &Vec<char>, pos: usize) -> (r: Option<(Vec<Inscription>, usize)>)
    ensures
        match r {
            Some(p) => {
                &&& chain_set_model(p.0@).len() >= 1
                &&& set_renderable(chain_set_model(p.0@))
                &&& begins(input@, pos as int, render_chains(chain_set_model(p.0@)))
                &&& p.1 == pos + render_chains(chain_set_model(p.0@)).len()
                &&& forall|cs2: Seq<ChainModel>|
                    cs2.len() >= 1 && set_renderable(cs2) && begins(
                        input@,
                        pos as int,
                        render_chains(cs2),
                    ) && list_end_ok(input@, pos + render_chains(cs2).len()) ==> cs2
                        == chain_set_model(p.0@)
            },
            None => forall|cs2: Seq<ChainModel>|
                cs2.len() >= 1 && set_renderable(cs2) && begins(
                    input@,
                    pos as int,
                    render_chains(cs2),
                ) && list_end_ok(input@, pos + render_chains(cs2).len()) ==> false,
        },
    decreases input@.len() - pos,
{
    let r1 = match parse_chain(input, pos) {
        Some(p) => p,
        None => {
            proof {
                assert forall|cs2: Seq<ChainModel>|
                    cs2.len() >= 1 && set_renderable(cs2) && begins(
                        input@,
                        pos as int,
                        render_chains(cs2),
                    ) implies false by {
                    if cs2.len() > 1 {
                        lemma_begins_concat(
                            input@,
                            pos as int,
                            render_chain(cs2[0]) + seq![','],
                            render_chains(cs2.skip(1)),
                        );
                        lemma_begins_concat(input@, pos as int, render_chain(cs2[0]), seq![',']);
                    }
                    assert(begins(input@, pos as int, render_chain(cs2[0])));
                    assert(chain_renderable(cs2[0]));
                }
            }
            return None;
        },
    };
    let c = r1.0;
    let j = r1.1;
    let has_comma = j < input.len() && input[j] == ',';
    if has_comma {
        let jn = j + 1;
        let r2 = match parse_chains1(input, jn) {
            Some(p) => p,
            None => {
                proof {
                    assert forall|cs2: Seq<ChainModel>|
                        cs2.len() >= 1 && set_renderable(cs2) && begins(
                            input@,
                            pos as int,
                            render_chains(cs2),
                        ) && list_end_ok(input@, pos + render_chains(cs2).len()) implies false by {
                        assert(chain_renderable(cs2[0]));
                        if cs2.len() == 1 {
                            assert(begins(input@, pos as int, render_chain(cs2[0])));
                            assert(cs2[0] == chain_model(c));
                            assert(pos + render_chains(cs2).len() == j);
                            assert(input@[j as int] == ',');
                        } else {
                            lemma_begins_concat(
                                input@,
                                pos as int,
                                render_chain(cs2[0]) + seq![','],
                                render_chains(cs2.skip(1)),
                            );
                            lemma_begins_concat(
                                input@,
                                pos as int,
                                render_chain(cs2[0]),
                                seq![','],
                            );
                            assert(begins(input@, pos as int, render_chain(cs2[0])));
                            assert(cs2[0] == chain_model(c));
                            let rest2 = cs2.skip(1);
                            assert forall|i: int| 0 <= i < rest2.len() implies chain_renderable(
                                #[trigger] rest2[i],
                            ) by {
                                assert(rest2[i] == cs2[i + 1]);
                            }
                            assert(set_renderable(rest2));
                            assert(begins(input@, jn as int, render_chains(rest2)));
                            assert(list_end_ok(input@, jn + render_chains(rest2).len()));
                            assert(rest2.len() >= 1);
                        }
                    }
                }
                return None;
            },
        };
        let mut rest = r2.0;
        let j2 = r2.1;
        let ghost restm = chain_set_model(rest@);
        let mut cs: Vec<Inscription> = Vec::new();
        cs.push(c);
        cs.append(&mut rest);
        proof {
            let m = chain_set_model(cs@);
            assert(m =~= seq![chain_model(c)] + restm);
            assert(m.len() >= 2);
            assert(m[0] == chain_model(c));
            assert(m.skip(1) =~= restm);
            assert(input@.subrange(j as int, j + 1) =~= seq![',']);
            assert(begins(input@, j as int, seq![',']));
            lemma_begins_concat(input@, pos as int, render_chain(m[0]), seq![',']);
            lemma_begins_concat(
                input@,
                pos as int,
                render_chain(m[0]) + seq![','],
                render_chains(m.skip(1)),
            );
            assert(begins(input@, pos as int, render_chains(m)));
            assert forall|cs2: Seq<ChainModel>|
                cs2.len() >= 1 && set_renderable(cs2) && begins(
                    input@,
                    pos as int,
                    render_chains(cs2),
                ) && list_end_ok(input@, pos + render_chains(cs2).len()) implies cs2 == m by {
                assert(chain_renderable(cs2[0]));
                if cs2.len() == 1 {
                    assert(begins(input@, pos as int, render_chain(cs2[0])));
                    assert(cs2[0] == chain_model(c));
                    assert(pos + render_chains(cs2).len() == j);
                    assert(input@[j as int] == ',');
                    assert(false);
                } else {
                    lemma_begins_concat(
                        input@,
                        pos as int,
                        render_chain(cs2[0]) + seq![','],
                        render_chains(cs2.skip(1)),
                    );
                    lemma_begins_concat(input@, pos as int, render_chain(cs2[0]), seq![',']);
                    assert(begins(input@, pos as int, render_chain(cs2[0])));
                    assert(cs2[0] == chain_model(c));
                    let rest2 = cs2.skip(1);
                    assert forall|i: int| 0 <= i < rest2.len() implies chain_renderable(
                        #[trigger] rest2[i],
                    ) by {
                        assert(rest2[i] == cs2[i + 1]);
                    }
                    assert(set_renderable(rest2));
                    assert(begins(input@, jn as int, render_chains(rest2)));
                    assert(list_end_ok(input@, jn + render_chains(rest2).len()));
                    assert(rest2.len() >= 1);
                    assert(rest2 == restm);
                    assert(cs2 =~= seq![cs2[0]] + rest2);
                    assert(m =~= seq![chain_model(c)] + restm);
                }
            }
        }
        Some((cs, j2))
    } else {
        let mut cs: Vec<Inscription> = Vec::new();
        cs.push(c);
        proof {
            let m = chain_set_model(cs@);
            assert(m =~= seq![chain_model(c)]);
            assert(m.len() == 1 && m[0] == chain_model(c));
            assert(render_chains(m) == render_chain(chain_model(c)));
            assert forall|cs2: Seq<ChainModel>|
                cs2.len() >= 1 && set_renderable(cs2) && begins(
                    input@,
                    pos as int,
                    render_chains(cs2),
                ) && list_end_ok(input@, pos + render_chains(cs2).len()) implies cs2 == m by {
                assert(chain_renderable(cs2[0]));
                if cs2.len() > 1 {
                    lemma_begins_concat(
                        input@,
                        pos as int,
                        render_chain(cs2[0]) + seq![','],
                        render_chains(cs2.skip(1)),
                    );
                    lemma_begins_concat(input@, pos as int, render_chain(cs2[0]), seq![',']);
                    assert(begins(input@, pos as int, render_chain(cs2[0])));
                    assert(cs2[0] == chain_model(c));
                    lemma_begins_index(
                        input@,
                        pos + render_chain(cs2[0]).len(),
                        seq![','],
                        0,
                    );
                    assert(input@[j as int] == ',');
                    assert(j < input@.len());
                    assert(false);
                }
                assert(begins(input@, pos as int, render_chain(cs2[0])));
                assert(cs2[0] == chain_model(c));
                assert(cs2 =~= m);
            }
        }
        Some((cs, j))
    }
}

/// Parse a whole stored document, exactly: `Some` is returned precisely for
/// the canonical rendering of a chain set, and then yields that set field for
/// field.  Loading a saved document therefore gives back the saved set.
pub fn parse_chain_set(input: &Vec<char>) -> (r: Option<Vec<Inscription>>)
    ensures
        match r {
            Some(cs) => {
                &&& set_renderable(chain_set_model(cs@))
                &&& input@ == render_set(chain_set_model(cs@))
                &&& forall|cs2: Seq<ChainModel>|
                    set_renderable(cs2) && input@ == render_set(cs2) ==> cs2 == chain_set_model(
                        cs@,
                    )
            },
            None => forall|cs2: Seq<ChainModel>|
                set_renderable(cs2) ==> input@ != render_set(cs2),
        },
{
    let n = input.len();
    let j1 = match match_lit(input, 0, "[") {
        Some(j) => j,
        None => {
            proof {
                reveal_strlit("[");
                assert forall|cs2: Seq<ChainModel>|
                    set_renderable(cs2) implies input@ != render_set(cs2) by {
                    if input@ == render_set(cs2) {
                        assert(input@.subrange(0, input@.len() as int) =~= input@);
                        assert(begins(input@, 0, render_set(cs2)));
                        lemma_begins_concat(
                            input@,
                            0,
                            seq!['['] + render_chains(cs2),
                            seq![']'],
                        );
                        lemma_begins_concat(input@, 0, seq!['['], render_chains(cs2));
                        assert(begins(input@, 0, seq!['[']));
                        lemma_begins_index(input@, 0, seq!['['], 0);
                        assert(input@[0] == '[');
                        assert("["@ =~= seq!['[']);
                        assert(begins(input@, 0, "["@));
                        assert(false);
                    }
                }
            }
            return None;
        },
    };
    proof {
        reveal_strlit("[");
        assert(j1 == 1);
        lemma_begins_index(input@, 0, "["@, 0);
        assert(input@[0] == '[');
    }
    match match_lit(input, j1, "]") {
        Some(j2) => {
            if j2 == n {
                let cs: Vec<Inscription> = Vec::new();
                proof {
                    reveal_strlit("]");
                    let m = chain_set_model(cs@);
                    assert(m =~= Seq::<ChainModel>::empty());
                    assert(render_chains(m) == Seq::<char>::empty());
                    lemma_begins_index(input@, 1, "]"@, 0);
                    assert(input@[1] == ']');
                    assert(n == 2);
                    assert(input@ =~= render_set(m));
                    reveal_strlit("{\"inscriptionNumber\":");
                    assert forall|cs2: Seq<ChainModel>|
                        set_renderable(cs2) && input@ == render_set(cs2) implies cs2 == m by {
                        if cs2.len() > 0 {
                            assert(input@.subrange(0, input@.len() as int) =~= input@);
                            assert(begins(input@, 0, render_set(cs2)));
                            lemma_begins_concat(
                                input@,
                                0,
                                seq!['['] + render_chains(cs2),
                                seq![']'],
                            );
                            lemma_begins_concat(input@, 0, seq!['['], render_chains(cs2));
                            if cs2.len() > 1 {
                                lemma_begins_concat(
                                    input@,
                                    1,
                                    render_chain(cs2[0]) + seq![','],
                                    render_chains(cs2.skip(1)),
                                );
                                lemma_begins_concat(
                                    input@,
                                    1,
                                    render_chain(cs2[0]),
                                    seq![','],
                                );
                            }
                            assert(begins(input@, 1, render_chain(cs2[0])));
                            lemma_chain_parts(input@, 1, cs2[0]);
                            lemma_begins_index(
                                input@,
                                1,
                                "{\"inscriptionNumber\":"@,
                                0,
                            );
                            assert(input@[1] == '{');
                            assert(false);
                        }
                        assert(cs2 =~= m);
                    }
                }
                return Some(cs);
            } else {
                proof {
                    reveal_strlit("]");
                    reveal_strlit("{\"inscriptionNumber\":");
                    lemma_begins_index(input@, 1, "]"@, 0);
                    assert(input@[1] == ']');
                    assert forall|cs2: Seq<ChainModel>|
                        set_renderable(cs2) implies input@ != render_set(cs2) by {
                        if input@ == render_set(cs2) {
                            assert(input@.subrange(0, input@.len() as int) =~= input@);
                            assert(begins(input@, 0, render_set(cs2)));
                            lemma_begins_concat(
                                input@,
                                0,
                                seq!['['] + render_chains(cs2),
                                seq![']'],
                            );
                            lemma_begins_concat(input@, 0, seq!['['], render_chains(cs2));
                            if cs2.len() == 0 {
                                assert(render_chains(cs2) == Seq::<char>::empty());
                                assert(input@.len() == 2);
                            } else {
                                if cs2.len() > 1 {
                                    lemma_begins_concat(
                                        input@,
                                        1,
                                        render_chain(cs2[0]) + seq![','],
                                        render_chains(cs2.skip(1)),
                                    );
                                    lemma_begins_concat(
                                        input@,
                                        1,
                                        render_chain(cs2[0]),
                                        seq![','],
                                    );
                                }
                                assert(begins(input@, 1, render_chain(cs2[0])));
                                lemma_chain_parts(input@, 1, cs2[0]);
                                lemma_begins_index(
                                    input@,
                                    1,
                                    "{\"inscriptionNumber\":"@,
                                    0,
                                );
                                assert(input@[1] == '{');
                            }
                            assert(false);
                        }
                    }
                }
                return None;
            }
        },
        None => {},
    }
    let r1 = match parse_chains1(input, j1) {
        Some(p) => p,
        None => {
            proof {
                reveal_strlit("]");
                assert forall|cs2: Seq<ChainModel>|
                    set_renderable(cs2) implies input@ != render_set(cs2) by {
                    if input@ == render_set(cs2) {
                        assert(input@.subrange(0, input@.len() as int) =~= input@);
                        assert(begins(input@, 0, render_set(cs2)));
                        lemma_begins_concat(
                            input@,
                            0,
                            seq!['['] + render_chains(cs2),
                            seq![']'],
                        );
                        lemma_begins_concat(input@, 0, seq!['['], render_chains(cs2));
                        if cs2.len() == 0 {
                            assert(render_chains(cs2) == Seq::<char>::empty());
                            assert(begins(input@, 1, seq![']']));
                            lemma_begins_index(input@, 1, seq![']'], 0);
                            assert(input@[1] == ']');
                            assert(input@.len() == 2);
                            assert(input@.subrange(1, 2) =~= "]"@);
                            assert(begins(input@, j1 as int, "]"@));
                        } else {
                            assert(begins(input@, j1 as int, render_chains(cs2)));
                            let p4x: int = 1 + render_chains(cs2).len() as int;
                            lemma_begins_index(input@, p4x, seq![']'], 0);
                            assert(input@[p4x] == ']');
                            assert(list_end_ok(input@, p4x));
                        }
                        assert(false);
                    }
                }
            }
            return None;
        },
    };
    let cs = r1.0;
    let j2 = r1.1;
    let j3 = match match_lit(input, j2, "]") {
        Some(j) => j,
        None => {
            proof {
                reveal_strlit("]");
                assert forall|cs2: Seq<ChainModel>|
                    set_renderable(cs2) implies input@ != render_set(cs2) by {
                    if input@ == render_set(cs2) {
                        assert(input@.subrange(0, input@.len() as int) =~= input@);
                        assert(begins(input@, 0, render_set(cs2)));
                        lemma_begins_concat(
                            input@,
                            0,
                            seq!['['] + render_chains(cs2),
                            seq![']'],
                        );
                        lemma_begins_concat(input@, 0, seq!['['], render_chains(cs2));
                        if cs2.len() == 0 {
                            assert(render_chains(cs2) == Seq::<char>::empty());
                            assert(begins(input@, 1, seq![']']));
                            lemma_begins_index(input@, 1, seq![']'], 0);
                            assert(input@.len() == 2);
                            assert(input@.subrange(1, 2) =~= "]"@);
                            assert(begins(input@, j1 as int, "]"@));
                            assert(false);
                        }
                        assert(begins(input@, j1 as int, render_chains(cs2)));
                        let p4x: int = 1 + render_chains(cs2).len() as int;
                        lemma_begins_index(input@, p4x, seq![']'], 0);
                        assert(input@[p4x] == ']');
                        assert(list_end_ok(input@, p4x));
                        assert(cs2 == chain_set_model(cs@));
                        assert(begins(input@, 1, render_chains(cs2)));
                        assert(input@.subrange(j2 as int, j2 + 1) =~= "]"@);
                        assert(begins(input@, j2 as int, "]"@));
                        assert(false);
                    }
                }
            }
            return None;
        },
    };
    if j3 == n {
        proof {
            reveal_strlit("]");
            let m = chain_set_model(cs@);
            lemma_begins_index(input@, j2 as int, "]"@, 0);
            assert(input@[j2 as int] == ']');
            assert(input@.subrange(0, 1) =~= seq!['[']);
            assert(begins(input@, 0, seq!['[']));
            lemma_begins_concat(input@, 0, seq!['['], render_chains(m));
            assert(begins(input@, 0, seq!['['] + render_chains(m)));
            assert(input@.subrange(j2 as int, j2 + 1) =~= seq![']']);
            assert(begins(input@, j2 as int, seq![']']));
            lemma_begins_concat(input@, 0, seq!['['] + render_chains(m), seq![']']);
            assert(begins(input@, 0, render_set(m)));
            assert(render_set(m).len() == n);
            assert(input@.subrange(0, n as int) =~= input@);
            assert(input@ =~= render_set(m));
            assert forall|cs2: Seq<ChainModel>|
                set_renderable(cs2) && input@ == render_set(cs2) implies cs2 == m by {
                assert(begins(input@, 0, render_set(cs2)));
                lemma_begins_concat(input@, 0, seq!['['] + render_chains(cs2), seq![']']);
                lemma_begins_concat(input@, 0, seq!['['], render_chains(cs2));
                if cs2.len() == 0 {
                    assert(render_chains(cs2) == Seq::<char>::empty());
                    assert(begins(input@, 1, seq![']']));
                    lemma_begins_index(input@, 1, seq![']'], 0);
                    assert(input@.len() == 2);
                    assert(input@.subrange(1, 2) =~= "]"@);
                    assert(begins(input@, j1 as int, "]"@));
                    assert(false);
                }
                assert(begins(input@, j1 as int, render_chains(cs2)));
                let p4x: int = 1 + render_chains(cs2).len() as int;
                lemma_begins_index(input@, p4x, seq![']'], 0);
                assert(input@[p4x] == ']');
                assert(list_end_ok(input@, p4x));
                assert(cs2 == chain_set_model(cs@));
            }
        }
        Some(cs)
    } else {
        proof {
            reveal_strlit("]");
            assert forall|cs2: Seq<ChainModel>|
                set_renderable(cs2) implies input@ != render_set(cs2) by {
                if input@ == render_set(cs2) {
                    assert(input@.subrange(0, input@.len() as int) =~= input@);
                    assert(begins(input@, 0, render_set(cs2)));
                    lemma_begins_concat(
                        input@,
                        0,
                        seq!['['] + render_chains(cs2),
                        seq![']'],
                    );
                    lemma_begins_concat(input@, 0, seq!['['], render_chains(cs2));
                    if cs2.len() == 0 {
                        assert(render_chains(cs2) == Seq::<char>::empty());
                        assert(begins(input@, 1, seq![']']));
                        lemma_begins_index(input@, 1, seq![']'], 0);
                        assert(input@.len() == 2);
                        assert(input@.subrange(1, 2) =~= "]"@);
                        assert(begins(input@, j1 as int, "]"@));
                        assert(false);
                    }
                    assert(begins(input@, j1 as int, render_chains(cs2)));
                    let p4x: int = 1 + render_chains(cs2).len() as int;
                    lemma_begins_index(input@, p4x, seq![']'], 0);
                    assert(input@[p4x] == ']');
                    assert(list_end_ok(input@, p4x));
                    assert(cs2 == chain_set_model(cs@));
                    assert(input@.len() == 1 + render_chains(cs2).len() + 1);
                    assert(input@.len() == j3);
                    assert(false);
                }
            }
        }
        None
    }
}

/// Whether a string can be stored verbatim in the document: free of quote
/// and backslash characters.
pub fn str_is_json_safe(s: &str) -> (r: bool)
    ensures
        r == json_safe_str(s@),
{
    let n = s.unicode_len();
    let mut i: usize = 0;
    while i < n
        invariant
            0 <= i <= n,
            n == s@.len(),
            forall|m: int| 0 <= m < i ==> s@[m] != '"' && s@[m] != '\\',
        decreases n - i,
    {
        let c = s.get_char(i);
        if c == '"' || c == '\\' {
            return false;
        }
        i = i + 1;
    }
    true
}

} // verus!
