//! The persistence codec: the store's records and counter written as one
//! JSON document, `{"store":[...],"next_id":N}`, each record as
//! `{"id":N,"title":"T","due_date":"YYYY-MM-DD","complete":B}` with no
//! whitespace between tokens. `enc_doc` is the document a store encodes to;
//! the `sp_*` functions are the grammar the decoder accepts, which accepts
//! exactly the encoded documents (the round-trip lemmas below).

use vstd::prelude::*;

use crate::dates::{iso_date_of, iso_seq, iso_shape_ok, Date};
use crate::text::{check_digit, check_title_char, digit_char, digit_to_char, digit_val,
    digit_value, is_digit, is_title_char, push_char};
use crate::todo_item::{item_wf, title_wf, ItemModel, TodoItem};

verus! {

/// The mathematical content of a sequence of records.
pub open spec fn models(s: Seq<TodoItem>) -> Seq<ItemModel> {
    s.map_values(|it: TodoItem| it@)
}

pub open spec fn lit_doc_open() -> Seq<char> {
    seq!['{', '"', 's', 't', 'o', 'r', 'e', '"', ':', '[']
}

pub open spec fn lit_doc_mid() -> Seq<char> {
    seq![']', ',', '"', 'n', 'e', 'x', 't', '_', 'i', 'd', '"', ':']
}

pub open spec fn lit_item_open() -> Seq<char> {
    seq!['{', '"', 'i', 'd', '"', ':']
}

pub open spec fn lit_title_key() -> Seq<char> {
    seq![',', '"', 't', 'i', 't', 'l', 'e', '"', ':', '"']
}

pub open spec fn lit_due_key() -> Seq<char> {
    seq!['"', ',', '"', 'd', 'u', 'e', '_', 'd', 'a', 't', 'e', '"', ':', '"']
}

pub open spec fn lit_complete_key() -> Seq<char> {
    seq!['"', ',', '"', 'c', 'o', 'm', 'p', 'l', 'e', 't', 'e', '"', ':']
}

pub open spec fn lit_true() -> Seq<char> {
    seq!['t', 'r', 'u', 'e']
}

pub open spec fn lit_false() -> Seq<char> {
    seq!['f', 'a', 'l', 's', 'e']
}

/// The decimal digits of `n`, most significant first, no leading zeros.
pub open spec fn dec_nat(n: nat) -> Seq<char>
    decreases n,
{
    if n < 10 {
        seq![digit_char(n as int)]
    } else {
        dec_nat(n / 10).push(digit_char((n % 10) as int))
    }
}

/// One record as document text.
pub open spec fn enc_item(m: ItemModel) -> Seq<char> {
    lit_item_open() + dec_nat(m.id) + lit_title_key() + m.title + lit_due_key() + iso_seq(
        m.due_date,
    ) + lit_complete_key() + (if m.complete {
        lit_true()
    } else {
        lit_false()
    }) + seq!['}']
}

/// The records as document text, comma separated.
pub open spec fn enc_items(ms: Seq<ItemModel>) -> Seq<char>
    decreases ms.len(),
{
    if ms.len() == 0 {
        Seq::empty()
    } else if ms.len() == 1 {
        enc_item(ms[0])
    } else {
        enc_item(ms[0]) + seq![','] + enc_items(ms.drop_first())
    }
}

/// The whole persisted document of a record list and a counter.
pub open spec fn enc_doc(ms: Seq<ItemModel>, next_id: nat) -> Seq<char> {
    lit_doc_open() + enc_items(ms) + lit_doc_mid() + dec_nat(next_id) + seq!['}']
}

/// End of the run of decimal digits starting at `i`.
pub open spec fn run_end_digits(s: Seq<char>, i: int) -> int
    decreases s.len() - i,
{
    if 0 <= i && i < s.len() && is_digit(s[i]) {
        run_end_digits(s, i + 1)
    } else {
        i
    }
}

/// Value of the digits `s[i .. j]`, most significant first.
pub open spec fn digits_val(s: Seq<char>, i: int, j: int) -> int
    decreases j - i,
{
    if i < j {
        digits_val(s, i, j - 1) * 10 + digit_val(s[j - 1])
    } else {
        0
    }
}

/// A counter or identifier: a run of digits without leading zeros whose value
/// fits the machine.
pub open spec fn sp_nat(s: Seq<char>, i: int) -> Option<(nat, int)> {
    let j = run_end_digits(s, i);
    if j == i {
        None
    } else if s[i] == '0' && j > i + 1 {
        None
    } else if digits_val(s, i, j) > usize::MAX as int {
        None
    } else {
        Some((digits_val(s, i, j) as nat, j))
    }
}

/// The fixed text `l` at position `i`.
pub open spec fn sp_lit(s: Seq<char>, i: int, l: Seq<char>) -> Option<int> {
    if 0 <= i && i + l.len() <= s.len() && s.subrange(i, i + l.len() as int) == l {
        Some(i + l.len() as int)
    } else {
        None
    }
}

/// End of the run of title characters starting at `i`.
pub open spec fn run_end_title(s: Seq<char>, i: int) -> int
    decreases s.len() - i,
{
    if 0 <= i && i < s.len() && is_title_char(s[i]) {
        run_end_title(s, i + 1)
    } else {
        i
    }
}

/// A title: 1 to 50 characters of the allowed class, ended by the closing
/// quote.
pub open spec fn sp_title(s: Seq<char>, i: int) -> Option<(Seq<char>, int)> {
    let j = run_end_title(s, i);
    if 1 <= j - i <= 50 {
        Some((s.subrange(i, j), j))
    } else {
        None
    }
}

/// Ten `YYYY-MM-DD` characters naming an existing calendar day.
pub open spec fn sp_date(s: Seq<char>, i: int) -> Option<(Date, int)> {
    if 0 <= i && i + 10 <= s.len() && iso_shape_ok(s.subrange(i, i + 10)) && iso_date_of(
        s.subrange(i, i + 10),
    ).wf() {
        Some((iso_date_of(s.subrange(i, i + 10)), i + 10))
    } else {
        None
    }
}

/// `true` or `false`.
pub open spec fn sp_bool(s: Seq<char>, i: int) -> Option<(bool, int)> {
    if sp_lit(s, i, lit_true()) is Some {
        Some((true, i + 4))
    } else if sp_lit(s, i, lit_false()) is Some {
        Some((false, i + 5))
    } else {
        None
    }
}

/// One record of the document.
pub open spec fn sp_item(s: Seq<char>, i: int) -> Option<(ItemModel, int)> {
    match sp_lit(s, i, lit_item_open()) {
        None => None,
        Some(i1) => match sp_nat(s, i1) {
            None => None,
            Some((id, i2)) => match sp_lit(s, i2, lit_title_key()) {
                None => None,
                Some(i3) => match sp_title(s, i3) {
                    None => None,
                    Some((title, i4)) => match sp_lit(s, i4, lit_due_key()) {
                        None => None,
                        Some(i5) => match sp_date(s, i5) {
                            None => None,
                            Some((due_date, i6)) => match sp_lit(s, i6, lit_complete_key()) {
                                None => None,
                                Some(i7) => match sp_bool(s, i7) {
                                    None => None,
                                    Some((complete, i8)) => match sp_lit(s, i8, seq!['}']) {
                                        None => None,
                                        Some(i9) => Some(
                                            (ItemModel { id, title, due_date, complete }, i9),
                                        ),
                                    },
                                },
                            },
                        },
                    },
                },
            },
        },
    }
}

/// One or more records, comma separated. The guards on the recursion only
/// rule out a parse that fails to advance, which `sp_item` never does.
pub open spec fn sp_items(s: Seq<char>, i: int) -> Option<(Seq<ItemModel>, int)>
    decreases s.len() - i,
{
    match sp_item(s, i) {
        None => None,
        Some((m, j)) => {
            if j < s.len() && s[j] == ',' {
                if i < j + 1 && j + 1 <= s.len() {
                    match sp_items(s, j + 1) {
                        None => None,
                        Some((rest, k)) => Some((seq![m] + rest, k)),
                    }
                } else {
                    None
                }
            } else {
                Some((seq![m], j))
            }
        },
    }
}

/// The whole document; it must be consumed exactly.
pub open spec fn sp_doc(s: Seq<char>) -> Option<(Seq<ItemModel>, nat)> {
    match sp_lit(s, 0, lit_doc_open()) {
        None => None,
        Some(i1) => {
            let items_res = if i1 < s.len() && s[i1] == ']' {
                Some((Seq::<ItemModel>::empty(), i1))
            } else {
                sp_items(s, i1)
            };
            match items_res {
                None => None,
                Some((ms, i2)) => match sp_lit(s, i2, lit_doc_mid()) {
                    None => None,
                    Some(i3) => match sp_nat(s, i3) {
                        None => None,
                        Some((n, i4)) => match sp_lit(s, i4, seq!['}']) {
                            None => None,
                            Some(i5) => if i5 == s.len() {
                                Some((ms, n))
                            } else {
                                None
                            },
                        },
                    },
                },
            }
        },
    }
}

/// Where a digit run ends: bounds, its characters, and its terminator.
proof fn lemma_run_end_digits_props(s: Seq<char>, i: int)
    requires
        0 <= i <= s.len(),
    ensures
        i <= run_end_digits(s, i) <= s.len(),
        forall|k: int| i <= k < run_end_digits(s, i) ==> is_digit(s[k]),
        run_end_digits(s, i) == s.len() || !is_digit(s[run_end_digits(s, i)]),
    decreases s.len() - i,
{
    if i < s.len() && is_digit(s[i]) {
        lemma_run_end_digits_props(s, i + 1);
    }
}

/// Where a title run ends: bounds, its characters, and its terminator.
proof fn lemma_run_end_title_props(s: Seq<char>, i: int)
    requires
        0 <= i <= s.len(),
    ensures
        i <= run_end_title(s, i) <= s.len(),
        forall|k: int| i <= k < run_end_title(s, i) ==> is_title_char(s[k]),
        run_end_title(s, i) == s.len() || !is_title_char(s[run_end_title(s, i)]),
    decreases s.len() - i,
{
    if i < s.len() && is_title_char(s[i]) {
        lemma_run_end_title_props(s, i + 1);
    }
}

/// The value of a digit run is not negative.
proof fn lemma_digits_val_nonneg(s: Seq<char>, i: int, j: int)
    requires
        forall|k: int| i <= k < j ==> is_digit(s[k]),
    ensures
        digits_val(s, i, j) >= 0,
    decreases j - i,
{
    if i < j {
        lemma_digits_val_nonneg(s, i, j - 1);
    }
}

/// A parsed record sits strictly inside the input and is well formed.
proof fn lemma_sp_item_props(s: Seq<char>, i: int)
    requires
        0 <= i <= s.len(),
        sp_item(s, i) is Some,
    ensures
        i < sp_item(s, i)->Some_0.1 <= s.len(),
        item_wf(sp_item(s, i)->Some_0.0),
        sp_item(s, i)->Some_0.0.id <= usize::MAX as nat,
    decreases s.len() - i,
{
    let i1 = sp_lit(s, i, lit_item_open())->Some_0;
    lemma_run_end_digits_props(s, i1);
    let i2 = sp_nat(s, i1)->Some_0.1;
    let i3 = sp_lit(s, i2, lit_title_key())->Some_0;
    lemma_run_end_title_props(s, i3);
    let i4 = sp_title(s, i3)->Some_0.1;
    let title = sp_title(s, i3)->Some_0.0;
    assert forall|k: int| 0 <= k < title.len() implies is_title_char(title[k]) by {
        assert(title[k] == s[i3 + k]);
    }
    lemma_digits_val_nonneg(s, i1, i2);
}

/// Every record of a parsed list sits inside the input and is well formed.
proof fn lemma_sp_items_props(s: Seq<char>, i: int)
    requires
        0 <= i <= s.len(),
        sp_items(s, i) is Some,
    ensures
        i < sp_items(s, i)->Some_0.1 <= s.len(),
        forall|k: int|
            0 <= k < sp_items(s, i)->Some_0.0.len() ==> item_wf(
                #[trigger] sp_items(s, i)->Some_0.0[k],
            ) && sp_items(s, i)->Some_0.0[k].id <= usize::MAX as nat,
    decreases s.len() - i,
{
    lemma_sp_item_props(s, i);
    let (m, j) = sp_item(s, i)->Some_0;
    if j < s.len() && s[j] == ',' {
        lemma_sp_items_props(s, j + 1);
    }
}

/// Appends the decimal digits of `n`.
fn push_nat(out: &mut String, n: usize)
    ensures
        final(out)@ == old(out)@ + dec_nat(n as nat),
    decreases n,
{
    if n >= 10 {
        push_nat(out, n / 10);
        push_char(out, digit_to_char((n % 10) as u32));
        proof {
            assert(out@ =~= old(out)@ + dec_nat(n as nat));
        }
    } else {
        push_char(out, digit_to_char(n as u32));
        proof {
            assert(out@ =~= old(out)@ + dec_nat(n as nat));
        }
    }
}

/// Appends one record's document text.
fn encode_item(out: &mut String, it: &TodoItem)
    requires
        it.due_date.wf(),
    ensures
        final(out)@ == old(out)@ + enc_item(it@),
{
    out.append("{\"id\":");
    proof {
        reveal_strlit("{\"id\":");
        assert(("{\"id\":"@) =~= lit_item_open());
    }
    push_nat(out, it.id);
    out.append(",\"title\":\"");
    proof {
        reveal_strlit(",\"title\":\"");
        assert((",\"title\":\""@) =~= lit_title_key());
    }
    out.append(it.title.as_str());
    out.append("\",\"due_date\":\"");
    proof {
        reveal_strlit("\",\"due_date\":\"");
        assert(("\",\"due_date\":\""@) =~= lit_due_key());
    }
    let iso = crate::dates::date_to_iso(&it.due_date);
    out.append(iso.as_str());
    out.append("\",\"complete\":");
    proof {
        reveal_strlit("\",\"complete\":");
        assert(("\",\"complete\":"@) =~= lit_complete_key());
    }
    if it.complete {
        out.append("true");
        proof {
            reveal_strlit("true");
            assert(("true"@) =~= lit_true());
        }
    } else {
        out.append("false");
        proof {
            reveal_strlit("false");
            assert(("false"@) =~= lit_false());
        }
    }
    out.append("}");
    proof {
        reveal_strlit("}");
        assert(("}"@) =~= seq!['}']);
        assert(out@ =~= old(out)@ + enc_item(it@));
    }
}

/// Splitting the encoded list after any prefix of records.
proof fn lemma_enc_items_snoc(ms: Seq<ItemModel>, i: int)
    requires
        0 <= i < ms.len(),
    ensures
        i == 0 ==> enc_items(ms.take(1)) == enc_item(ms[0]),
        i > 0 ==> enc_items(ms.take(i + 1)) == enc_items(ms.take(i)) + seq![','] + enc_item(ms[i]),
    decreases i,
{
    if i == 0 {
        assert(ms.take(1).len() == 1);
        assert(ms.take(1)[0] == ms[0]);
    } else {
        let s = ms.take(i + 1);
        assert(s.len() == i + 1 >= 2);
        assert(s.drop_first() =~= ms.drop_first().take(i));
        lemma_enc_items_snoc(ms.drop_first(), i - 1);
        if i == 1 {
            assert(ms.take(1).len() == 1 && ms.take(1)[0] == ms[0]);
            assert(ms.drop_first().take(1)[0] == ms[1]);
            assert(enc_items(s) =~= enc_items(ms.take(1)) + seq![','] + enc_item(ms[1]));
        } else {
            assert(ms.take(i).drop_first() =~= ms.drop_first().take(i - 1));
            assert(enc_items(ms.take(i)) == enc_item(ms[0]) + seq![','] + enc_items(
                ms.drop_first().take(i - 1),
            ));
            assert(ms.drop_first()[i - 1] == ms[i]);
            assert(enc_items(s) =~= enc_items(ms.take(i)) + seq![','] + enc_item(ms[i]));
        }
    }
}

/// Writes the whole document for `items` and `next_id`.
pub fn encode(items: &Vec<TodoItem>, next_id: usize) -> (r: String)
    requires
        forall|i: int| 0 <= i < items@.len() ==> (#[trigger] items@[i]).due_date.wf(),
    ensures
        r@ == enc_doc(models(items@), next_id as nat),
{
    let ghost ms = models(items@);
    let mut out = String::new();
    out.append("{\"store\":[");
    proof {
        reveal_strlit("{\"store\":[");
        assert(("{\"store\":["@) =~= lit_doc_open());
        assert(out@ =~= lit_doc_open() + enc_items(ms.take(0)));
    }
    let mut i: usize = 0;
    while i < items.len()
        invariant
            0 <= i <= items@.len(),
            ms == models(items@),
            forall|k: int| 0 <= k < items@.len() ==> (#[trigger] items@[k]).due_date.wf(),
            out@ == lit_doc_open() + enc_items(ms.take(i as int)),
        decreases items@.len() - i,
    {
        if i > 0 {
            out.append(",");
            proof {
                reveal_strlit(",");
                assert((","@) =~= seq![',']);
            }
        }
        encode_item(&mut out, &items[i]);
        proof {
            assert(ms[i as int] == items@[i as int]@);
            lemma_enc_items_snoc(ms, i as int);
            assert(out@ =~= lit_doc_open() + enc_items(ms.take(i + 1)));
        }
        i = i + 1;
    }
    proof {
        assert(ms.take(items@.len() as int) =~= ms);
    }
    out.append("],\"next_id\":");
    proof {
        reveal_strlit("],\"next_id\":");
        assert(("],\"next_id\":"@) =~= lit_doc_mid());
    }
    push_nat(&mut out, next_id);
    out.append("}");
    proof {
        reveal_strlit("}");
        assert(("}"@) =~= seq!['}']);
        assert(out@ =~= enc_doc(ms, next_id as nat));
    }
    out
}

/// Matches the fixed text `l` at position `i`.
fn p_lit(s: &str, i: usize, l: &str) -> (r: Option<usize>)
    requires
        i <= s@.len(),
    ensures
        r is Some <==> sp_lit(s@, i as int, l@) is Some,
        r is Some ==> r->Some_0 == sp_lit(s@, i as int, l@)->Some_0,
{
    let slen = s.unicode_len();
    let llen = l.unicode_len();
    if llen > slen - i {
        return None;
    }
    let mut k: usize = 0;
    while k < llen
        invariant
            0 <= k <= llen,
            i + llen <= slen,
            slen == s@.len(),
            llen == l@.len(),
            forall|k2: int| 0 <= k2 < k ==> s@[i + k2] == l@[k2],
        decreases llen - k,
    {
        if s.get_char(i + k) != l.get_char(k) {
            proof {
                assert(s@.subrange(i as int, i + llen)[k as int] != l@[k as int]);
                assert(s@.subrange(i as int, i + llen) != l@);
            }
            return None;
        }
        k = k + 1;
    }
    proof {
        assert(s@.subrange(i as int, i + llen) =~= l@);
    }
    Some(i + llen)
}

/// Reads a counter or identifier at position `i`.
fn p_nat(s: &str, i: usize) -> (r: Option<(usize, usize)>)
    requires
        i <= s@.len(),
    ensures
        r is Some <==> sp_nat(s@, i as int) is Some,
        r is Some ==> r->Some_0.0 == sp_nat(s@, i as int)->Some_0.0 && r->Some_0.1 == sp_nat(
            s@,
            i as int,
        )->Some_0.1,
{
    let slen = s.unicode_len();
    let mut j: usize = i;
    while j < slen && check_digit(s.get_char(j))
        invariant
            i <= j <= slen,
            slen == s@.len(),
            run_end_digits(s@, i as int) == run_end_digits(s@, j as int),
            forall|k: int| i <= k < j ==> is_digit(s@[k]),
        decreases slen - j,
    {
        j = j + 1;
    }
    proof {
        assert(run_end_digits(s@, j as int) == j as int);
    }
    if j == i {
        return None;
    }
    if s.get_char(i) == '0' && j > i + 1 {
        return None;
    }
    let mut acc: usize = 0;
    let mut fits: bool = true;
    let mut k: usize = i;
    while k < j
        invariant
            i <= k <= j <= slen,
            slen == s@.len(),
            forall|k2: int| i <= k2 < j ==> is_digit(s@[k2]),
            fits ==> acc == digits_val(s@, i as int, k as int),
            !fits ==> digits_val(s@, i as int, k as int) > usize::MAX as int,
        decreases j - k,
    {
        let d = digit_value(s.get_char(k)) as usize;
        proof {
            lemma_digits_val_nonneg(s@, i as int, k as int);
            assert(digits_val(s@, i as int, k + 1) == digits_val(s@, i as int, k as int) * 10
                + digit_val(s@[k as int]));
        }
        if fits {
            let wide: u128 = acc as u128 * 10 + d as u128;
            if wide <= usize::MAX as u128 {
                acc = (wide) as usize;
            } else {
                fits = false;
            }
        } else {
            proof {
                let dv = digits_val(s@, i as int, k as int);
                assert(dv * 10 + digit_val(s@[k as int]) > usize::MAX as int) by (nonlinear_arith)
                    requires
                        dv > usize::MAX as int,
                        digit_val(s@[k as int]) >= 0,
                ;
            }
        }
        k = k + 1;
    }
    if fits {
        Some((acc, j))
    } else {
        None
    }
}

/// Reads a title at position `i`.
fn p_title(s: &str, i: usize) -> (r: Option<(String, usize)>)
    requires
        i <= s@.len(),
    ensures
        r is Some <==> sp_title(s@, i as int) is Some,
        r is Some ==> r->Some_0.0@ == sp_title(s@, i as int)->Some_0.0 && r->Some_0.1 == sp_title(
            s@,
            i as int,
        )->Some_0.1,
{
    let slen = s.unicode_len();
    let mut j: usize = i;
    while j < slen && check_title_char(s.get_char(j))
        invariant
            i <= j <= slen,
            slen == s@.len(),
            run_end_title(s@, i as int) == run_end_title(s@, j as int),
        decreases slen - j,
    {
        j = j + 1;
    }
    proof {
        assert(run_end_title(s@, j as int) == j as int);
    }
    if 1 <= j - i && j - i <= 50 {
        let title = s.substring_char(i, j).to_owned();
        Some((title, j))
    } else {
        None
    }
}

/// Reads a `true` or `false` at position `i`.
fn p_bool(s: &str, i: usize) -> (r: Option<(bool, usize)>)
    requires
        i <= s@.len(),
    ensures
        r is Some <==> sp_bool(s@, i as int) is Some,
        r is Some ==> r->Some_0.0 == sp_bool(s@, i as int)->Some_0.0 && r->Some_0.1 == sp_bool(
            s@,
            i as int,
        )->Some_0.1,
{
    proof {
        reveal_strlit("true");
        reveal_strlit("false");
        assert(("true"@) =~= lit_true());
        assert(("false"@) =~= lit_false());
    }
    match p_lit(s, i, "true") {
        Some(j) => Some((true, j)),
        None => match p_lit(s, i, "false") {
            Some(j) => Some((false, j)),
            None => None,
        },
    }
}

/// Reads one record at position `i`.
fn p_item(s: &str, i: usize) -> (r: Option<(TodoItem, usize)>)
    requires
        i <= s@.len(),
    ensures
        r is Some <==> sp_item(s@, i as int) is Some,
        r is Some ==> r->Some_0.0@ == sp_item(s@, i as int)->Some_0.0 && r->Some_0.1 == sp_item(
            s@,
            i as int,
        )->Some_0.1,
{
    proof {
        reveal_strlit("{\"id\":");
        assert(("{\"id\":"@) =~= lit_item_open());
        reveal_strlit(",\"title\":\"");
        assert((",\"title\":\""@) =~= lit_title_key());
        reveal_strlit("\",\"due_date\":\"");
        assert(("\",\"due_date\":\""@) =~= lit_due_key());
        reveal_strlit("\",\"complete\":");
        assert(("\",\"complete\":"@) =~= lit_complete_key());
        reveal_strlit("}");
        assert(("}"@) =~= seq!['}']);
    }
    let slen = s.unicode_len();
    let i1 = match p_lit(s, i, "{\"id\":") {
        Some(x) => x,
        None => {
            return None;
        },
    };
    let (id, i2) = match p_nat(s, i1) {
        Some(x) => x,
        None => {
            return None;
        },
    };
    proof {
        lemma_run_end_digits_props(s@, i1 as int);
    }
    let i3 = match p_lit(s, i2, ",\"title\":\"") {
        Some(x) => x,
        None => {
            return None;
        },
    };
    let (title, i4) = match p_title(s, i3) {
        Some(x) => x,
        None => {
            return None;
        },
    };
    proof {
        lemma_run_end_title_props(s@, i3 as int);
    }
    let i5 = match p_lit(s, i4, "\",\"due_date\":\"") {
        Some(x) => x,
        None => {
            return None;
        },
    };
    if slen - i5 < 10 {
        return None;
    }
    let due_date = match crate::dates::parse_iso_at(s, i5) {
        Some(d) => d,
        None => {
            return None;
        },
    };
    let i6 = i5 + 10;
    let i7 = match p_lit(s, i6, "\",\"complete\":") {
        Some(x) => x,
        None => {
            return None;
        },
    };
    let (complete, i8) = match p_bool(s, i7) {
        Some(x) => x,
        None => {
            return None;
        },
    };
    let i9 = match p_lit(s, i8, "}") {
        Some(x) => x,
        None => {
            return None;
        },
    };
    Some((TodoItem { id, title, due_date, complete }, i9))
}

/// Reads the comma-separated records at position `i`.
fn p_items(s: &str, i: usize) -> (r: Option<(Vec<TodoItem>, usize)>)
    requires
        i <= s@.len(),
    ensures
        r is Some <==> sp_items(s@, i as int) is Some,
        r is Some ==> models(r->Some_0.0@) == sp_items(s@, i as int)->Some_0.0 && r->Some_0.1
            == sp_items(s@, i as int)->Some_0.1,
    decreases s@.len() - i,
{
    let slen = s.unicode_len();
    let (it, j) = match p_item(s, i) {
        Some(x) => x,
        None => {
            return None;
        },
    };
    proof {
        lemma_sp_item_props(s@, i as int);
    }
    if j < slen && s.get_char(j) == ',' {
        match p_items(s, j + 1) {
            Some((mut rest, k)) => {
                rest.insert(0, it);
                proof {
                    assert(models(rest@) =~= seq![it@] + sp_items(s@, j + 1)->Some_0.0);
                }
                Some((rest, k))
            },
            None => None,
        }
    } else {
        let mut v: Vec<TodoItem> = Vec::new();
        v.push(it);
        proof {
            assert(models(v@) =~= seq![it@]);
        }
        Some((v, j))
    }
}

/// Reads a whole document. The decoder accepts exactly the documents the
/// encoder writes.
fn p_doc(s: &str) -> (r: Option<(Vec<TodoItem>, usize)>)
    ensures
        r is Some <==> sp_doc(s@) is Some,
        r is Some ==> models(r->Some_0.0@) == sp_doc(s@)->Some_0.0 && r->Some_0.1 == sp_doc(
            s@,
        )->Some_0.1,
{
    proof {
        reveal_strlit("{\"store\":[");
        assert(("{\"store\":["@) =~= lit_doc_open());
        reveal_strlit("],\"next_id\":");
        assert(("],\"next_id\":"@) =~= lit_doc_mid());
        reveal_strlit("}");
        assert(("}"@) =~= seq!['}']);
    }
    let slen = s.unicode_len();
    let i1 = match p_lit(s, 0, "{\"store\":[") {
        Some(x) => x,
        None => {
            return None;
        },
    };
    let empty_list = i1 < slen && s.get_char(i1) == ']';
    let (items, i2): (Vec<TodoItem>, usize) = if empty_list {
        let v: Vec<TodoItem> = Vec::new();
        proof {
            assert(models(v@) =~= Seq::<ItemModel>::empty());
        }
        (v, i1)
    } else {
        match p_items(s, i1) {
            Some(x) => x,
            None => {
                return None;
            },
        }
    };
    proof {
        if !empty_list {
            lemma_sp_items_props(s@, i1 as int);
        }
    }
    let i3 = match p_lit(s, i2, "],\"next_id\":") {
        Some(x) => x,
        None => {
            return None;
        },
    };
    let (n, i4) = match p_nat(s, i3) {
        Some(x) => x,
        None => {
            return None;
        },
    };
    proof {
        lemma_run_end_digits_props(s@, i3 as int);
    }
    let i5 = match p_lit(s, i4, "}") {
        Some(x) => x,
        None => {
            return None;
        },
    };
    if i5 == slen {
        Some((items, n))
    } else {
        None
    }
}

/// Reads a persisted document: nothing at all is an empty store with a zero
/// counter, anything else must be exactly an encoded document, and any other
/// content reports the store corrupted.
pub fn decode(contents: &str) -> (r: Result<(Vec<TodoItem>, usize), crate::todo_error::TodoError>)
    ensures
        contents@.len() == 0 ==> r is Ok && r->Ok_0.0@.len() == 0 && r->Ok_0.1 == 0,
        contents@.len() > 0 ==> (r is Ok <==> sp_doc(contents@) is Some),
        contents@.len() > 0 && r is Ok ==> models(r->Ok_0.0@) == sp_doc(contents@)->Some_0.0
            && r->Ok_0.1 == sp_doc(contents@)->Some_0.1,
        r is Err ==> r->Err_0.message@ == crate::todo_error::corrupt_store_msg(),
{
    if contents.is_empty() {
        return Ok((Vec::new(), 0));
    }
    match p_doc(contents) {
        Some((items, n)) => Ok((items, n)),
        None => Err(crate::todo_error::corrupt_store_error()),
    }
}

/// Everything a parsed document holds is well formed.
pub proof fn lemma_sp_doc_wf(s: Seq<char>)
    requires
        sp_doc(s) is Some,
    ensures
        forall|k: int|
            0 <= k < sp_doc(s)->Some_0.0.len() ==> item_wf(#[trigger] sp_doc(s)->Some_0.0[k])
                && sp_doc(s)->Some_0.0[k].id <= usize::MAX as nat,
        sp_doc(s)->Some_0.1 <= usize::MAX as nat,
{
    let i1 = sp_lit(s, 0, lit_doc_open())->Some_0;
    let i2 = if i1 < s.len() && s[i1] == ']' {
        i1
    } else {
        lemma_sp_items_props(s, i1);
        sp_items(s, i1)->Some_0.1
    };
    let i3 = sp_lit(s, i2, lit_doc_mid())->Some_0;
    lemma_run_end_digits_props(s, i3);
    lemma_digits_val_nonneg(s, i3, run_end_digits(s, i3));
}

/// The digits of a number: at least one, all digits, no leading zero.
proof fn lemma_dec_nat_props(n: nat)
    ensures
        dec_nat(n).len() >= 1,
        forall|k: int| 0 <= k < dec_nat(n).len() ==> is_digit(#[trigger] dec_nat(n)[k]),
        n > 0 ==> dec_nat(n)[0] != '0',
        n == 0 ==> dec_nat(n) == seq!['0'],
    decreases n,
{
    crate::text::lemma_digit_char_val((n % 10) as int);
    if n < 10 {
        crate::text::lemma_digit_char_val(n as int);
    } else {
        lemma_dec_nat_props(n / 10);
    }
}

/// Reading back the digits of `n` gives `n`.
proof fn lemma_digits_val_of_dec(s: Seq<char>, i: int, n: nat)
    requires
        0 <= i,
        i + dec_nat(n).len() <= s.len(),
        s.subrange(i, i + dec_nat(n).len()) == dec_nat(n),
    ensures
        digits_val(s, i, i + dec_nat(n).len()) == n,
    decreases n,
{
    let l = dec_nat(n).len() as int;
    assert(s[i + l - 1] == dec_nat(n)[l - 1]);
    if n < 10 {
        crate::text::lemma_digit_char_val(n as int);
        assert(digits_val(s, i, i) == 0);
    } else {
        assert(s.subrange(i, i + l - 1) =~= dec_nat(n / 10)) by {
            assert forall|k: int| 0 <= k < l - 1 implies #[trigger] s.subrange(i, i + l - 1)[k]
                == dec_nat(n / 10)[k] by {
                assert(s[i + k] == dec_nat(n)[k]);
            }
        }
        lemma_digits_val_of_dec(s, i, n / 10);
        crate::text::lemma_digit_char_val((n % 10) as int);
        assert(digits_val(s, i, i + l) == digits_val(s, i, i + l - 1) * 10 + digit_val(
            s[i + l - 1],
        ));
    }
}

/// A digit run bounded on both sides ends exactly at the bound.
proof fn lemma_run_end_digits_exact(s: Seq<char>, i: int, j: int)
    requires
        0 <= i <= j <= s.len(),
        forall|k: int| i <= k < j ==> is_digit(s[k]),
        j == s.len() || !is_digit(s[j]),
    ensures
        run_end_digits(s, i) == j,
    decreases j - i,
{
    if i < j {
        lemma_run_end_digits_exact(s, i + 1, j);
    }
}

/// A title run bounded on both sides ends exactly at the bound.
proof fn lemma_run_end_title_exact(s: Seq<char>, i: int, j: int)
    requires
        0 <= i <= j <= s.len(),
        forall|k: int| i <= k < j ==> is_title_char(s[k]),
        j == s.len() || !is_title_char(s[j]),
    ensures
        run_end_title(s, i) == j,
    decreases j - i,
{
    if i < j {
        lemma_run_end_title_exact(s, i + 1, j);
    }
}

/// The number parser reads back exactly the digits of `n`.
proof fn lemma_sp_nat_at(s: Seq<char>, i: int, n: nat)
    requires
        n <= usize::MAX as nat,
        0 <= i,
        i + dec_nat(n).len() <= s.len(),
        s.subrange(i, i + dec_nat(n).len()) == dec_nat(n),
        i + dec_nat(n).len() == s.len() || !is_digit(s[i + dec_nat(n).len()]),
    ensures
        sp_nat(s, i) == Some((n, i + dec_nat(n).len())),
{
    let l = dec_nat(n).len() as int;
    lemma_dec_nat_props(n);
    assert forall|k: int| i <= k < i + l implies is_digit(s[k]) by {
        assert(s[k] == dec_nat(n)[k - i]);
    }
    lemma_run_end_digits_exact(s, i, i + l);
    lemma_digits_val_of_dec(s, i, n);
    assert(s[i] == dec_nat(n)[0]);
    if n == 0 {
        assert(l == 1);
    }
}

/// The title parser reads back exactly a well-formed title.
proof fn lemma_sp_title_at(s: Seq<char>, i: int, t: Seq<char>)
    requires
        title_wf(t),
        0 <= i,
        i + t.len() <= s.len(),
        s.subrange(i, i + t.len()) == t,
        i + t.len() == s.len() || !is_title_char(s[i + t.len()]),
    ensures
        sp_title(s, i) == Some((t, i + t.len())),
{
    let l = t.len() as int;
    assert forall|k: int| i <= k < i + l implies is_title_char(s[k]) by {
        assert(s[k] == t[k - i]);
    }
    lemma_run_end_title_exact(s, i, i + l);
    assert(s.subrange(i, i + l) == t);
}

/// The date parser reads back exactly the text of a valid date.
proof fn lemma_sp_date_at(s: Seq<char>, i: int, d: Date)
    requires
        d.wf(),
        0 <= i,
        i + 10 <= s.len(),
        s.subrange(i, i + 10) == iso_seq(d),
    ensures
        sp_date(s, i) == Some((d, i + 10)),
{
    crate::dates::lemma_iso_roundtrip(d);
}

/// The boolean parser reads back exactly `true` or `false`.
proof fn lemma_sp_bool_at(s: Seq<char>, i: int, b: bool)
    requires
        0 <= i,
        i + (if b {
            4int
        } else {
            5int
        }) <= s.len(),
        s.subrange(
            i,
            i + (if b {
                4int
            } else {
                5int
            }),
        ) == (if b {
            lit_true()
        } else {
            lit_false()
        }),
    ensures
        sp_bool(s, i) == Some((b, i + (if b {
            4int
        } else {
            5int
        }))),
{
    if b {
        assert(s[i] == 't');
    } else {
        assert(s[i] == 'f');
        assert(sp_lit(s, i, lit_true()) is None) by {
            if sp_lit(s, i, lit_true()) is Some {
                assert(s.subrange(i, i + 4)[0] == 't');
            }
        }
    }
}

/// A piece of a matched text is matched at its offset.
proof fn lemma_concat_piece(s: Seq<char>, i: int, pre: int, p: Seq<char>, e: Seq<char>)
    requires
        0 <= i,
        i + e.len() <= s.len(),
        s.subrange(i, i + e.len()) == e,
        0 <= pre,
        pre + p.len() <= e.len(),
        e.subrange(pre, pre + p.len()) == p,
    ensures
        s.subrange(i + pre, i + pre + p.len()) == p,
{
    assert(s.subrange(i + pre, i + pre + p.len()) =~= p) by {
        assert forall|k: int| 0 <= k < p.len() implies s[i + pre + k] == p[k] by {
            assert(s.subrange(i, i + e.len())[pre + k] == s[i + pre + k]);
            assert(e.subrange(pre, pre + p.len())[k] == e[pre + k]);
        }
    }
}

/// The record parser reads back exactly an encoded record.
#[verifier::rlimit(60)]
proof fn lemma_sp_item_at(s: Seq<char>, i: int, m: ItemModel)
    requires
        item_wf(m),
        m.id <= usize::MAX as nat,
        0 <= i,
        i + enc_item(m).len() <= s.len(),
        s.subrange(i, i + enc_item(m).len()) == enc_item(m),
    ensures
        sp_item(s, i) == Some((m, i + enc_item(m).len())),
{
    let e = enc_item(m);
    let bb = if m.complete {
        lit_true()
    } else {
        lit_false()
    };
    let o1 = 6int;
    let o2 = o1 + dec_nat(m.id).len() as int;
    let o3 = o2 + 10;
    let o4 = o3 + m.title.len() as int;
    let o5 = o4 + 14;
    let o6 = o5 + 10;
    let o7 = o6 + 13;
    let o8 = o7 + bb.len() as int;
    let o9 = o8 + 1;
    assert(e =~= lit_item_open() + dec_nat(m.id) + lit_title_key() + m.title + lit_due_key()
        + iso_seq(m.due_date) + lit_complete_key() + bb + seq!['}']);
    assert(e.len() == o9);
    assert(e.subrange(0, o1) =~= lit_item_open());
    assert(e.subrange(o1, o2) =~= dec_nat(m.id));
    assert(e.subrange(o2, o3) =~= lit_title_key());
    assert(e.subrange(o3, o4) =~= m.title);
    assert(e.subrange(o4, o5) =~= lit_due_key());
    assert(e.subrange(o5, o6) =~= iso_seq(m.due_date));
    assert(e.subrange(o6, o7) =~= lit_complete_key());
    assert(e.subrange(o7, o8) =~= bb);
    assert(e.subrange(o8, o9) =~= seq!['}']);
    lemma_concat_piece(s, i, 0, lit_item_open(), e);
    lemma_concat_piece(s, i, o1, dec_nat(m.id), e);
    lemma_concat_piece(s, i, o2, lit_title_key(), e);
    lemma_concat_piece(s, i, o3, m.title, e);
    lemma_concat_piece(s, i, o4, lit_due_key(), e);
    lemma_concat_piece(s, i, o5, iso_seq(m.due_date), e);
    lemma_concat_piece(s, i, o6, lit_complete_key(), e);
    lemma_concat_piece(s, i, o7, bb, e);
    lemma_concat_piece(s, i, o8, seq!['}'], e);
    assert(sp_lit(s, i, lit_item_open()) == Some(i + o1));
    assert(s[i + o2] == e[o2]);
    assert(e[o2] == ',');
    lemma_sp_nat_at(s, i + o1, m.id);
    assert(sp_lit(s, i + o2, lit_title_key()) == Some(i + o3));
    assert(s[i + o4] == e[o4]);
    assert(e[o4] == '"');
    lemma_sp_title_at(s, i + o3, m.title);
    assert(sp_lit(s, i + o4, lit_due_key()) == Some(i + o5));
    lemma_sp_date_at(s, i + o5, m.due_date);
    assert(sp_lit(s, i + o6, lit_complete_key()) == Some(i + o7));
    lemma_sp_bool_at(s, i + o7, m.complete);
    assert(sp_lit(s, i + o8, seq!['}']) == Some(i + o9));
}

/// The list parser reads back exactly an encoded record list.
#[verifier::rlimit(60)]
proof fn lemma_sp_items_at(s: Seq<char>, i: int, ms: Seq<ItemModel>)
    requires
        ms.len() >= 1,
        forall|k: int|
            0 <= k < ms.len() ==> item_wf(#[trigger] ms[k]) && ms[k].id <= usize::MAX as nat,
        0 <= i,
        i + enc_items(ms).len() <= s.len(),
        s.subrange(i, i + enc_items(ms).len()) == enc_items(ms),
        i + enc_items(ms).len() == s.len() || s[i + enc_items(ms).len()] != ',',
    ensures
        sp_items(s, i) == Some((ms, i + enc_items(ms).len())),
    decreases ms.len(),
{
    let e = enc_items(ms);
    if ms.len() == 1 {
        lemma_sp_item_at(s, i, ms[0]);
        assert(seq![ms[0]] =~= ms);
    } else {
        let e0 = enc_item(ms[0]);
        let rest = enc_items(ms.drop_first());
        let o1 = e0.len() as int;
        let o2 = o1 + 1;
        let o3 = o2 + rest.len() as int;
        assert(e.len() == o3);
        assert(e.subrange(0, o1) =~= e0);
        assert(e.subrange(o1, o2) =~= seq![',']);
        assert(e.subrange(o2, o3) =~= rest);
        lemma_concat_piece(s, i, 0, e0, e);
        lemma_concat_piece(s, i, o1, seq![','], e);
        lemma_concat_piece(s, i, o2, rest, e);
        lemma_sp_item_at(s, i, ms[0]);
        assert(s[i + o1] == s.subrange(i + o1, i + o2)[0]);
        assert(s[i + o1] == ',');
        lemma_sp_items_at(s, i + o2, ms.drop_first());
        assert(seq![ms[0]] + ms.drop_first() =~= ms);
    }
}

/// The round-trip law at the document level: decoding the encoding of any
/// record list and counter gives them back exactly.
#[verifier::rlimit(60)]
pub proof fn lemma_roundtrip(ms: Seq<ItemModel>, n: nat)
    requires
        forall|k: int|
            0 <= k < ms.len() ==> item_wf(#[trigger] ms[k]) && ms[k].id <= usize::MAX as nat,
        n <= usize::MAX as nat,
    ensures
        sp_doc(enc_doc(ms, n)) == Some((ms, n)),
{
    let s = enc_doc(ms, n);
    let e1 = enc_items(ms);
    let o1 = 10int;
    let o2 = o1 + e1.len() as int;
    let o3 = o2 + 12;
    let o4 = o3 + dec_nat(n).len() as int;
    let o5 = o4 + 1;
    assert(s.len() == o5);
    assert(s.subrange(0, o1) =~= lit_doc_open());
    assert(s.subrange(o1, o2) =~= e1);
    assert(s.subrange(o2, o3) =~= lit_doc_mid());
    assert(s.subrange(o3, o4) =~= dec_nat(n));
    assert(s.subrange(o4, o5) =~= seq!['}']);
    assert(sp_lit(s, 0, lit_doc_open()) == Some(o1));
    assert(s[o2] == s.subrange(o2, o3)[0]);
    assert(s[o2] == ']');
    if ms.len() == 0 {
        assert(e1.len() == 0);
        assert(s[o1] == ']');
        assert(sp_doc(s) == Some((ms, n))) by {
            assert(sp_lit(s, o2, lit_doc_mid()) == Some(o3));
            lemma_dec_nat_props(n);
            assert(s[o4] == '}');
            lemma_sp_nat_at(s, o3, n);
            assert(sp_lit(s, o4, seq!['}']) == Some(o5));
            assert(Seq::<ItemModel>::empty() =~= ms);
        }
    } else {
        assert(s[o1] == s.subrange(o1, o2)[0]);
        assert(s[o1] == '{');
        lemma_sp_items_at(s, o1, ms);
        assert(sp_lit(s, o2, lit_doc_mid()) == Some(o3));
        lemma_dec_nat_props(n);
        assert(s[o4] == '}');
        lemma_sp_nat_at(s, o3, n);
        assert(sp_lit(s, o4, seq!['}']) == Some(o5));
    }
}

} // verus!
