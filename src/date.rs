use vstd::prelude::*;
use chrono::Datelike;
use crate::codec::{date_bytes, get_u64, le64, read_date};
use crate::errors::CustomErrors;

verus! {

pub open spec fn is_leap_year(y: int) -> bool {
    (y % 4 == 0 && y % 100 != 0) || y % 400 == 0
}

pub open spec fn days_in_month(y: int, m: int) -> int {
    if m == 2 {
        if is_leap_year(y) { 29 } else { 28 }
    } else if m == 4 || m == 6 || m == 9 || m == 11 {
        30
    } else {
        31
    }
}

/// Day `d` of month `m` exists in year `y` of the proleptic Gregorian calendar.
pub open spec fn valid_ymd(y: int, m: int, d: int) -> bool {
    1 <= m <= 12 && 1 <= d <= days_in_month(y, m)
}

/// A calendar date whose year has at most four digits.
#[derive(Debug, Clone, Copy, PartialEq, Eq, Structural)]
pub struct Data {
    pub dia: u32,
    pub mes: u32,
    pub ano: u32,
}

pub open spec fn digit_byte(x: u32) -> u8 {
    (48 + x) as u8
}

pub open spec fn is_digit_byte(b: u8) -> bool {
    48 <= b <= 57
}

pub open spec fn digit_value(b: u8) -> int {
    b - 48
}

/// The ten ASCII bytes `dd/mm/YYYY` that stand for a date in the files.
pub open spec fn date_text(d: Data) -> Seq<u8> {
    seq![
        digit_byte(d.dia / 10), digit_byte(d.dia % 10), 47u8,
        digit_byte(d.mes / 10), digit_byte(d.mes % 10), 47u8,
        digit_byte(d.ano / 1000), digit_byte((d.ano / 100) % 10),
        digit_byte((d.ano / 10) % 10), digit_byte(d.ano % 10),
    ]
}

/// Reads ten bytes as `dd/mm/YYYY`; `None` where they are not of that shape
/// or name no date.
pub open spec fn text_date(t: Seq<u8>) -> Option<Data> {
    if t.len() == 10 && is_digit_byte(t[0]) && is_digit_byte(t[1]) && t[2] == 47u8
        && is_digit_byte(t[3]) && is_digit_byte(t[4]) && t[5] == 47u8
        && is_digit_byte(t[6]) && is_digit_byte(t[7]) && is_digit_byte(t[8])
        && is_digit_byte(t[9]) {
        let d = 10 * digit_value(t[0]) + digit_value(t[1]);
        let m = 10 * digit_value(t[3]) + digit_value(t[4]);
        let y = 1000 * digit_value(t[6]) + 100 * digit_value(t[7]) + 10 * digit_value(t[8])
            + digit_value(t[9]);
        if valid_ymd(y, m, d) {
            Some(Data { dia: d as u32, mes: m as u32, ano: y as u32 })
        } else {
            None
        }
    } else {
        None
    }
}

impl Data {
    pub open spec fn wf(self) -> bool {
        self.ano <= 9999 && valid_ymd(self.ano as int, self.mes as int, self.dia as int)
    }

    /// The date `dia/mes/ano`, where it exists and its year has at most four digits.
    pub fn new(dia: u32, mes: u32, ano: u32) -> (r: Option<Data>)
        ensures
            r is Some <==> (Data { dia, mes, ano }).wf(),
            r matches Some(d) ==> d == (Data { dia, mes, ano }),
    {
        if ano > 9999 || mes < 1 || mes > 12 || dia < 1 {
            return None;
        }
        let leap = (ano % 4 == 0 && ano % 100 != 0) || ano % 400 == 0;
        let last: u32 = if mes == 2 {
            if leap { 29 } else { 28 }
        } else if mes == 4 || mes == 6 || mes == 9 || mes == 11 {
            30
        } else {
            31
        };
        if dia > last {
            None
        } else {
            Some(Data { dia, mes, ano })
        }
    }

    /// The bytes `dd/mm/YYYY` of this date.
    pub fn text_bytes(&self) -> (r: Vec<u8>)
        requires
            self.wf(),
        ensures
            r@ == date_text(*self),
    {
        let mut r: Vec<u8> = Vec::new();
        r.push((48 + self.dia / 10) as u8);
        r.push((48 + self.dia % 10) as u8);
        r.push(47u8);
        r.push((48 + self.mes / 10) as u8);
        r.push((48 + self.mes % 10) as u8);
        r.push(47u8);
        r.push((48 + self.ano / 1000) as u8);
        r.push((48 + (self.ano / 100) % 10) as u8);
        r.push((48 + (self.ano / 10) % 10) as u8);
        r.push((48 + self.ano % 10) as u8);
        assert(r@ =~= date_text(*self));
        r
    }
}

impl Default for Data {
    /// The first of January 1970.
    fn default() -> (r: Data)
        ensures
            r == (Data { dia: 1, mes: 1, ano: 1970 }),
    {
        Data { dia: 1, mes: 1, ano: 1970 }
    }
}

/// Reading a date back from its text gives the same date.
pub proof fn lemma_date_text_round_trip(d: Data)
    requires
        d.wf(),
    ensures
        text_date(date_text(d)) == Some(d),
        date_text(d).len() == 10,
{
    let t = date_text(d);
    let y = d.ano as int;
    assert(y == 1000 * (y / 1000) + 100 * ((y / 100) % 10) + 10 * ((y / 10) % 10) + y % 10);
    assert(d.dia as int == 10 * (d.dia as int / 10) + d.dia as int % 10);
    assert(d.mes as int == 10 * (d.mes as int / 10) + d.mes as int % 10);
}

/// Reads `dd/mm/YYYY` at `pos`; `None` where the bytes there are not a date.
pub fn read_date_text(b: &[u8], pos: usize) -> (r: Option<Data>)
    requires
        pos + 10 <= b@.len(),
    ensures
        r == text_date(b@.subrange(pos as int, pos + 10)),
        r matches Some(d) ==> d.wf(),
{
    let ghost t = b@.subrange(pos as int, pos + 10);
    let n = b.len();
    let mut k: usize = 0;
    while k < 10
        invariant
            k <= 10,
            n == b@.len(),
            pos + 10 <= b@.len(),
            t == b@.subrange(pos as int, pos + 10),
            forall|j: int| 0 <= j < k ==> if j == 2 || j == 5 {
                t[j] == 47u8
            } else {
                is_digit_byte(t[j])
            },
        decreases 10 - k,
    {
        let c = b[pos + k];
        if k == 2 || k == 5 {
            if c != 47u8 {
                return None;
            }
        } else if c < 48 || c > 57 {
            return None;
        }
        k = k + 1;
    }
    assert(forall|j: int| 0 <= j < 10 ==> t[j] == b@[pos + j]);
    assert(is_digit_byte(t[0]) && is_digit_byte(t[1]) && is_digit_byte(t[3]) && is_digit_byte(t[4]));
    assert(is_digit_byte(t[6]) && is_digit_byte(t[7]) && is_digit_byte(t[8]) && is_digit_byte(t[9]));
    let dia = 10 * (b[pos] - 48) as u32 + (b[pos + 1] - 48) as u32;
    let mes = 10 * (b[pos + 3] - 48) as u32 + (b[pos + 4] - 48) as u32;
    let ano = 1000 * (b[pos + 6] - 48) as u32 + 100 * (b[pos + 7] - 48) as u32 + 10 * (b[pos
        + 8] - 48) as u32 + (b[pos + 9] - 48) as u32;
    Data::new(dia, mes, ano)
}

/// A date read from text is a valid date of the store.
pub proof fn lemma_text_date_wf(t: Seq<u8>)
    requires
        text_date(t) is Some,
    ensures
        text_date(t).unwrap().wf(),
{
}

/// Writes a date as it stands in a record: the length 10, then `dd/mm/YYYY`.
pub fn serialize(d: &Data) -> (r: Vec<u8>)
    requires
        d.wf(),
    ensures
        r@ == date_bytes(*d),
{
    let mut out = vstd::bytes::u64_to_le_bytes(10);
    let mut t = d.text_bytes();
    out.append(&mut t);
    assert(out@ == le64(10) + date_text(*d));
    out
}

/// Reads a date written by `serialize` at `pos`, giving it and the position
/// after it; `None` where the bytes there are not such a date.
pub fn deserialize(s: &[u8], pos: usize) -> (r: Option<(Data, usize)>)
    ensures
        match r {
            Some((d, e)) => read_date(s@, pos as int) == Some((d, e as int)),
            None => read_date(s@, pos as int) is None,
        },
{
    let len = s.len();
    if pos > len || len - pos < 18 {
        return None;
    }
    if get_u64(s, pos) != 10 {
        return None;
    }
    match read_date_text(s, pos + 8) {
        Some(d) => Some((d, pos + 18)),
        None => None,
    }
}

/// What chrono's day/month/year parser makes of a text, as (year, month, day).
pub uninterp spec fn parsed_date(s: Seq<char>) -> Option<(i32, u32, u32)>;

/// Relies on chrono's `NaiveDate::parse_from_str` with the pattern `%d/%m/%Y`:
/// its outcome depends on the text alone, and a date it returns exists in the
/// calendar.
#[verifier::external_body]
fn chrono_parse_dmy(s: &str) -> (r: Option<(i32, u32, u32)>)
    ensures
        r == parsed_date(s@),
        r matches Some((y, m, d)) ==> valid_ymd(y as int, m as int, d as int),
{
    match chrono::NaiveDate::parse_from_str(s, "%d/%m/%Y") {
        Ok(date) => Some((date.year(), date.month(), date.day())),
        Err(_) => None,
    }
}

pub open spec fn date_of_parts(p: Option<(i32, u32, u32)>) -> Result<Data, CustomErrors> {
    match p {
        Some((y, m, d)) => if 0 <= y <= 9999 {
            Ok(Data { dia: d, mes: m, ano: y as u32 })
        } else {
            Err(CustomErrors::InvalidDate)
        },
        None => Err(CustomErrors::InvalidDate),
    }
}

/// Turns the (year, month, day) that a date parser returned into a date of
/// the store, which holds years of at most four digits.
pub fn date_from_parts(p: Option<(i32, u32, u32)>) -> (r: Result<Data, CustomErrors>)
    requires
        p matches Some((y, m, d)) ==> valid_ymd(y as int, m as int, d as int),
    ensures
        r == date_of_parts(p),
        r matches Ok(d) ==> d.wf(),
{
    match p {
        Some((y, m, d)) => if 0 <= y && y <= 9999 {
            Ok(Data { dia: d, mes: m, ano: y as u32 })
        } else {
            Err(CustomErrors::InvalidDate)
        },
        None => Err(CustomErrors::InvalidDate),
    }
}

/// Reads a date typed as day/month/year (`10/8/2023` or `10/08/2023`).
pub fn validate_date(s: &str) -> (r: Result<Data, CustomErrors>)
    ensures
        r == date_of_parts(parsed_date(s@)),
        r matches Ok(d) ==> d.wf(),
{
    date_from_parts(chrono_parse_dmy(s))
}

} // verus!
