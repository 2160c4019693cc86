//! Reading the values that a user types: integers, the lines of a sale,
//! categories and payment methods.
use vstd::prelude::*;
use vstd::string::*;
use vstd::utf8::encode_utf8;
use crate::errors::CustomErrors;
use crate::date::{date_of_parts, parsed_date, validate_date};
use crate::model::{Categoria, MetodoPagamento, Produto, ProdutoView};

verus! {

/// The characters that `char::is_whitespace` accepts: those with the Unicode
/// `White_Space` property.
pub open spec fn is_ws(c: char) -> bool {
    ('\u{9}' <= c <= '\u{d}') || c == ' ' || c == '\u{85}' || c == '\u{a0}' || c == '\u{1680}' || (
    '\u{2000}' <= c <= '\u{200a}') || c == '\u{2028}' || c == '\u{2029}' || c == '\u{202f}' || c
        == '\u{205f}' || c == '\u{3000}'
}

pub open spec fn is_decimal_digit(c: char) -> bool {
    '0' <= c <= '9'
}

/// The number that a run of decimal digits spells.
pub open spec fn digits_value(s: Seq<char>) -> int
    decreases s.len(),
{
    if s.len() == 0 {
        0
    } else {
        10 * digits_value(s.drop_last()) + (s.last() as int - '0' as int)
    }
}

/// What parsing `s` as a `u64` gives: an optional `+`, then at least one
/// decimal digit and nothing else, with a value that fits.
pub open spec fn int_text(s: Seq<char>) -> Option<u64> {
    let d = unsigned_part(s);
    if d.len() > 0 && all_digits(d) && digits_value(d) <= u64::MAX {
        Some(digits_value(d) as u64)
    } else {
        None
    }
}

/// The text without a leading `+`.
pub open spec fn unsigned_part(s: Seq<char>) -> Seq<char> {
    if s.len() > 0 && s[0] == '+' {
        s.drop_first()
    } else {
        s
    }
}

pub open spec fn all_digits(d: Seq<char>) -> bool {
    forall|i: int| 0 <= i < d.len() ==> is_decimal_digit(#[trigger] d[i])
}

/// The words of `s`: its maximal runs of characters that are not whitespace.
pub open spec fn words(s: Seq<char>) -> Seq<Seq<char>>
    decreases s.len(),
{
    if s.len() == 0 {
        Seq::empty()
    } else {
        let w = words(s.drop_last());
        let c = s.last();
        if is_ws(c) {
            w
        } else if s.len() >= 2 && !is_ws(s[s.len() - 2]) {
            w.drop_last().push(w.last().push(c))
        } else {
            w.push(seq![c])
        }
    }
}

/// A line of a sale: a product id, then optionally a quantity (1 if left out).
pub open spec fn sale_line(s: Seq<char>) -> Result<(u64, u64), CustomErrors> {
    let w = words(s);
    if w.len() == 1 {
        match int_text(w[0]) {
            Some(id) => Ok((id, 1)),
            None => Err(CustomErrors::InvalidNumber),
        }
    } else if w.len() == 2 {
        match int_text(w[1]) {
            None => Err(CustomErrors::InvalidNumber),
            Some(amount) => match int_text(w[0]) {
                Some(id) => Ok((id, amount)),
                None => Err(CustomErrors::InvalidNumber),
            },
        }
    } else {
        Err(CustomErrors::TooManyArguments)
    }
}

proof fn lemma_digits_grow(s: Seq<char>, k: int)
    requires
        0 <= k <= s.len(),
        forall|i: int| 0 <= i < s.len() ==> is_decimal_digit(#[trigger] s[i]),
    ensures
        digits_value(s.take(k)) <= digits_value(s),
        0 <= digits_value(s.take(k)),
    decreases s.len() - k,
{
    lemma_digits_nonneg(s.take(k));
    if k < s.len() {
        lemma_digits_grow(s, k + 1);
        assert(s.take(k + 1).drop_last() =~= s.take(k));
    } else {
        assert(s.take(k) =~= s);
    }
}

proof fn lemma_digits_nonneg(s: Seq<char>)
    requires
        forall|i: int| 0 <= i < s.len() ==> is_decimal_digit(#[trigger] s[i]),
    ensures
        0 <= digits_value(s),
    decreases s.len(),
{
    if s.len() > 0 {
        lemma_digits_nonneg(s.drop_last());
    }
}

/// Reads a non-negative integer that fits 64 bits, as `str::parse::<u64>` does.
pub fn validate_int(s: &str) -> (r: Result<u64, CustomErrors>)
    ensures
        match int_text(s@) {
            Some(v) => r == Ok::<u64, CustomErrors>(v),
            None => r == Err::<u64, CustomErrors>(CustomErrors::InvalidNumber),
        },
{
    let n = s.unicode_len();
    let mut k: usize = 0;
    if n > 0 && s.get_char(0) == '+' {
        k = 1;
    }
    let start = k;
    let ghost d = unsigned_part(s@);
    assert(d =~= s@.subrange(start as int, n as int));
    if k == n {
        return Err(CustomErrors::InvalidNumber);
    }
    let mut v: u64 = 0;
    let mut overflow = false;
    while k < n
        invariant
            n == s@.len(),
            start <= k <= n,
            d == s@.subrange(start as int, n as int),
            d == unsigned_part(s@),
            forall|i: int| start <= i < k ==> is_decimal_digit(#[trigger] s@[i]),
            !overflow ==> v == digits_value(s@.subrange(start as int, k as int)),
            overflow ==> digits_value(s@.subrange(start as int, k as int)) > u64::MAX,
        decreases n - k,
    {
        let c = s.get_char(k);
        if c < '0' || c > '9' {
            assert(d[k - start] == s@[k as int]);
            assert(!is_decimal_digit(d[k - start]));
            assert(!all_digits(d));
            return Err(CustomErrors::InvalidNumber);
        }
        let digit = (c as u32 - '0' as u32) as u64;
        let ghost prev = s@.subrange(start as int, k as int);
        proof {
            assert(s@.subrange(start as int, k + 1).drop_last() =~= prev);
            assert forall|i: int| 0 <= i < prev.len() implies is_decimal_digit(#[trigger] prev[i]) by {
                assert(prev[i] == s@[start + i]);
            }
            lemma_digits_nonneg(prev);
        }
        if !overflow {
            if v > (u64::MAX - digit) / 10 {
                overflow = true;
            } else {
                v = v * 10 + digit;
            }
        }
        k = k + 1;
    }
    proof {
        assert(s@.subrange(start as int, n as int) =~= d);
        assert forall|i: int| 0 <= i < d.len() implies is_decimal_digit(#[trigger] d[i]) by {
            assert(d[i] == s@[start + i]);
        }
    }
    if overflow {
        Err(CustomErrors::InvalidNumber)
    } else {
        Ok(v)
    }
}

/// Reads a line of a sale, `id` or `id quantity`, words separated by
/// whitespace; a quantity left out is 1.
pub fn validate_sale(s: &str) -> (r: Result<(u64, u64), CustomErrors>)
    ensures
        r == sale_line(s@),
{
    let n = s.unicode_len();
    let mut count: usize = 0;
    let mut in_word = false;
    let mut s0: usize = 0;
    let mut e0: usize = 0;
    let mut s1: usize = 0;
    let mut e1: usize = 0;
    let mut k: usize = 0;
    proof {
        assert(s@.take(0) =~= Seq::<char>::empty());
    }
    while k < n
        invariant
            n == s@.len(),
            k <= n,
            count <= k,
            count == words(s@.take(k as int)).len(),
            in_word == (k > 0 && !is_ws(s@[k - 1])),
            in_word ==> count >= 1,
            count >= 1 ==> s0 <= e0 <= k && words(s@.take(k as int))[0] == s@.subrange(
                s0 as int,
                e0 as int,
            ),
            count >= 2 ==> s1 <= e1 <= k && words(s@.take(k as int))[1] == s@.subrange(
                s1 as int,
                e1 as int,
            ),
            in_word && count == 1 ==> e0 == k,
            in_word && count == 2 ==> e1 == k,
        decreases n - k,
    {
        let c = s.get_char(k);
        let ghost t = s@.take(k + 1);
        let ghost w = words(s@.take(k as int));
        proof {
            assert(t.drop_last() =~= s@.take(k as int));
            assert(t.last() == c);
            if k >= 1 {
                assert(t[t.len() - 2] == s@[k - 1]);
            }
        }
        if is_whitespace(c) {
            in_word = false;
        } else if in_word {
            proof {
                let w2 = words(t);
                assert(w2 == w.drop_last().push(w.last().push(c)));
                if count == 1 {
                    assert(w2[0] =~= s@.subrange(s0 as int, k + 1));
                } else if count == 2 {
                    assert(w2[0] == w[0]);
                    assert(w2[1] =~= s@.subrange(s1 as int, k + 1));
                } else {
                    assert(w2[0] == w[0]);
                    assert(w2[1] == w[1]);
                }
            }
            if count == 1 {
                e0 = k + 1;
            } else if count == 2 {
                e1 = k + 1;
            }
        } else {
            proof {
                let w2 = words(t);
                assert(w2 == w.push(seq![c]));
                if count == 0 {
                    assert(w2[0] =~= s@.subrange(k as int, k + 1));
                } else if count == 1 {
                    assert(w2[0] == w[0]);
                    assert(w2[1] =~= s@.subrange(k as int, k + 1));
                } else {
                    assert(w2[0] == w[0]);
                    assert(w2[1] == w[1]);
                }
            }
            if count == 0 {
                s0 = k;
                e0 = k + 1;
            } else if count == 1 {
                s1 = k;
                e1 = k + 1;
            }
            count = count + 1;
            in_word = true;
        }
        k = k + 1;
    }
    proof {
        assert(s@.take(n as int) =~= s@);
    }
    let amount: u64 = if count == 1 {
        1
    } else if count == 2 {
        match validate_int(s.substring_char(s1, e1)) {
            Ok(a) => a,
            Err(e) => return Err(e),
        }
    } else {
        return Err(CustomErrors::TooManyArguments);
    };
    let id = match validate_int(s.substring_char(s0, e0)) {
        Ok(id) => id,
        Err(e) => return Err(e),
    };
    Ok((id, amount))
}

/// Whether `c` is whitespace, as `char::is_whitespace` says.
pub fn is_whitespace(c: char) -> (r: bool)
    ensures
        r == is_ws(c),
{
    ('\u{9}' <= c && c <= '\u{d}') || c == ' ' || c == '\u{85}' || c == '\u{a0}' || c == '\u{1680}'
        || ('\u{2000}' <= c && c <= '\u{200a}') || c == '\u{2028}' || c == '\u{2029}' || c
        == '\u{202f}' || c == '\u{205f}' || c == '\u{3000}'
}

pub open spec fn trim_start(s: Seq<char>) -> Seq<char>
    decreases s.len(),
{
    if s.len() > 0 && is_ws(s[0]) {
        trim_start(s.drop_first())
    } else {
        s
    }
}

pub open spec fn trim_end(s: Seq<char>) -> Seq<char>
    decreases s.len(),
{
    if s.len() > 0 && is_ws(s.last()) {
        trim_end(s.drop_last())
    } else {
        s
    }
}

/// The text without whitespace at either end, as `str::trim` gives it.
pub open spec fn trimmed(s: Seq<char>) -> Seq<char> {
    trim_end(trim_start(s))
}

/// The text without whitespace at either end.
pub fn trim(s: &str) -> (r: &str)
    ensures
        r@ == trimmed(s@),
{
    let n = s.unicode_len();
    let mut a: usize = 0;
    assert(s@.subrange(0, n as int) =~= s@);
    while a < n && is_whitespace(s.get_char(a))
        invariant
            n == s@.len(),
            a <= n,
            trim_start(s@) == trim_start(s@.subrange(a as int, n as int)),
        decreases n - a,
    {
        assert(s@.subrange(a as int, n as int).drop_first() =~= s@.subrange(a + 1, n as int));
        a = a + 1;
    }
    let mut b: usize = n;
    let ghost t = s@.subrange(a as int, n as int);
    assert(trim_start(t) == t);
    while b > a && is_whitespace(s.get_char(b - 1))
        invariant
            n == s@.len(),
            a <= b <= n,
            t == s@.subrange(a as int, n as int),
            trim_end(t) == trim_end(s@.subrange(a as int, b as int)),
        decreases b,
    {
        assert(s@.subrange(a as int, b as int).drop_last() =~= s@.subrange(a as int, b - 1));
        b = b - 1;
    }
    s.substring_char(a, b)
}

/// What `str::to_lowercase` makes of a text.
pub uninterp spec fn lower_of(s: Seq<char>) -> Seq<char>;

/// Relies on `str::to_lowercase`: its result depends on the characters alone.
#[verifier::external_body]
fn lowercase(s: &str) -> (r: String)
    ensures
        r@ == lower_of(s@),
{
    s.to_lowercase()
}

/// Whether two texts hold the same characters.
pub fn same_text(t: &str, u: &str) -> (r: bool)
    ensures
        r == (t@ == u@),
{
    let n = t.unicode_len();
    if n != u.unicode_len() {
        return false;
    }
    let mut k: usize = 0;
    while k < n
        invariant
            n == t@.len(),
            n == u@.len(),
            k <= n,
            forall|j: int| 0 <= j < k ==> t@[j] == u@[j],
        decreases n - k,
    {
        if t.get_char(k) != u.get_char(k) {
            return false;
        }
        k = k + 1;
    }
    assert(t@ =~= u@);
    true
}

/// The payment method a lower-case name stands for.
pub open spec fn payment_named(t: Seq<char>) -> Result<MetodoPagamento, CustomErrors> {
    if t == "credito"@ {
        Ok(MetodoPagamento::Credito)
    } else if t == "debito"@ {
        Ok(MetodoPagamento::Debito)
    } else if t == "pix"@ {
        Ok(MetodoPagamento::Pix)
    } else if t == "dinheiro"@ {
        Ok(MetodoPagamento::Dinheiro)
    } else {
        Err(CustomErrors::NoCategory)
    }
}

/// The category a lower-case name stands for.
pub open spec fn category_named(t: Seq<char>) -> Result<Categoria, CustomErrors> {
    if t == "eletronico"@ {
        Ok(Categoria::Eletronico)
    } else if t == "roupa"@ {
        Ok(Categoria::Roupa)
    } else if t == "alimento"@ {
        Ok(Categoria::Alimento)
    } else if t == "geral"@ {
        Ok(Categoria::Geral)
    } else {
        Err(CustomErrors::NoCategory)
    }
}

/// The payment method named by `t`, written in lower case.
pub fn payment_from_name(t: &str) -> (r: Result<MetodoPagamento, CustomErrors>)
    ensures
        r == payment_named(t@),
{
    if same_text(t, "credito") {
        Ok(MetodoPagamento::Credito)
    } else if same_text(t, "debito") {
        Ok(MetodoPagamento::Debito)
    } else if same_text(t, "pix") {
        Ok(MetodoPagamento::Pix)
    } else if same_text(t, "dinheiro") {
        Ok(MetodoPagamento::Dinheiro)
    } else {
        Err(CustomErrors::NoCategory)
    }
}

/// The category named by `t`, written in lower case.
pub fn category_from_name(t: &str) -> (r: Result<Categoria, CustomErrors>)
    ensures
        r == category_named(t@),
{
    if same_text(t, "eletronico") {
        Ok(Categoria::Eletronico)
    } else if same_text(t, "roupa") {
        Ok(Categoria::Roupa)
    } else if same_text(t, "alimento") {
        Ok(Categoria::Alimento)
    } else if same_text(t, "geral") {
        Ok(Categoria::Geral)
    } else {
        Err(CustomErrors::NoCategory)
    }
}

/// Reads a payment method typed by the user (`credito`, `debito`, `pix`,
/// `dinheiro`), in any case and with whitespace around it.
pub fn validate_payment_method(s: &str) -> (r: Result<MetodoPagamento, CustomErrors>)
    ensures
        r == payment_named(lower_of(trimmed(s@))),
{
    let low = lowercase(trim(s));
    payment_from_name(low.as_str())
}

/// Reads a category typed by the user (`eletronico`, `roupa`, `alimento`,
/// `geral`), in any case.
pub fn validate_category(s: &str) -> (r: Result<Categoria, CustomErrors>)
    ensures
        r == category_named(lower_of(s@)),
{
    let low = lowercase(s);
    category_from_name(low.as_str())
}

/// The product that the typed fields describe, with id 0, or the first
/// error among them, checked in field order. `valor` is the price as the
/// caller parsed it, as the bits of an IEEE 754 double.
pub open spec fn product_fields(
    nome: Seq<char>,
    estoque: Seq<char>,
    valor: Option<u64>,
    restoque: Seq<char>,
    data: Seq<char>,
    categoria: Seq<char>,
) -> Result<ProdutoView, CustomErrors> {
    if encode_utf8(nome).len() > 40 {
        Err(CustomErrors::NameTooLong)
    } else {
        match (int_text(estoque), valor, int_text(restoque)) {
            (Some(q), Some(v), Some(rq)) => match date_of_parts(parsed_date(data)) {
                Err(e) => Err(e),
                Ok(d) => match category_named(lower_of(categoria)) {
                    Err(e) => Err(e),
                    Ok(c) => Ok(
                        ProdutoView {
                            nome,
                            id: 0,
                            quantidade_estoque: q,
                            valor: v,
                            quantidade_restoque: rq,
                            categoria: c,
                            data_restoque: d,
                        },
                    ),
                },
            },
            _ => Err(CustomErrors::InvalidNumber),
        }
    }
}

/// Builds a product from the fields a user typed: name (at most 40 bytes),
/// stock, price, restock threshold, date of the last restock and category.
pub fn validate_product(
    nome: &str,
    estoque: &str,
    valor: Option<u64>,
    restoque: &str,
    data: &str,
    categoria: &str,
) -> (r: Result<Produto, CustomErrors>)
    ensures
        match r {
            Ok(p) => product_fields(nome@, estoque@, valor, restoque@, data@, categoria@) == Ok::<
                ProdutoView,
                CustomErrors,
            >(p@),
            Err(e) => product_fields(nome@, estoque@, valor, restoque@, data@, categoria@) == Err::<
                ProdutoView,
                CustomErrors,
            >(e),
        },
{
    if nome.as_bytes().len() > 40 {
        return Err(CustomErrors::NameTooLong);
    }
    let q = validate_int(estoque);
    let rq = validate_int(restoque);
    let (q, v, rq) = match (q, valor, rq) {
        (Ok(q), Some(v), Ok(rq)) => (q, v, rq),
        _ => return Err(CustomErrors::InvalidNumber),
    };
    let d = match validate_date(data) {
        Ok(d) => d,
        Err(e) => return Err(e),
    };
    let c = match validate_category(categoria) {
        Ok(c) => c,
        Err(e) => return Err(e),
    };
    Ok(Produto::new(nome.to_string(), 0, q, v, rq, d, c))
}

} // verus!
