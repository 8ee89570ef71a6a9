use vstd::prelude::*;
use vstd::string::*;

verus! {

/// Number of characters before the day number in a day folder's name
/// (the `day` of `day07`).
pub const DAY_PREFIX_LEN: usize = 3;

/// Why a run of the tool stopped.
#[derive(Debug, Clone, PartialEq, Eq)]
pub enum AocError {
    /// The day folder's name is not the day prefix followed by a number.
    BadDayName(String),
    /// The server refused the resource, most likely because it was asked for
    /// too soon.
    NotAvailable,
}

/// The per-project settings: which year's puzzles, and the session
/// credential sent along with every request.
pub struct Config {
    pub year: String,
    pub session: String,
}

/// The day being worked on, and the project folder that holds its folder.
pub struct RunContext {
    pub day_name: String,
    pub base_folder: String,
}

pub open spec fn is_digit(c: char) -> bool {
    '0' <= c <= '9'
}

pub open spec fn digit_value(c: char) -> nat {
    ((c as u32) - ('0' as u32)) as nat
}

pub open spec fn digit_char(d: nat) -> char {
    if d == 0 {
        '0'
    } else if d == 1 {
        '1'
    } else if d == 2 {
        '2'
    } else if d == 3 {
        '3'
    } else if d == 4 {
        '4'
    } else if d == 5 {
        '5'
    } else if d == 6 {
        '6'
    } else if d == 7 {
        '7'
    } else if d == 8 {
        '8'
    } else {
        '9'
    }
}

/// The number that a string of decimal digits writes.
pub open spec fn digits_value(s: Seq<char>) -> nat
    decreases s.len(),
{
    if s.len() == 0 {
        0
    } else {
        digits_value(s.drop_last()) * 10 + digit_value(s.last())
    }
}

/// A number's text without its optional leading `+`.
pub open spec fn unsigned_part(s: Seq<char>) -> Seq<char> {
    if s.len() > 0 && s[0] == '+' {
        s.drop_first()
    } else {
        s
    }
}

/// `s` writes a non-negative integer: an optional `+`, then one or more
/// decimal digits.
pub open spec fn is_decimal(s: Seq<char>) -> bool {
    let d = unsigned_part(s);
    d.len() > 0 && forall|i: int| 0 <= i < d.len() ==> is_digit(d[i])
}

/// The part of a day folder's name that holds the day number.
pub open spec fn day_digits(name: Seq<char>) -> Seq<char> {
    name.skip(DAY_PREFIX_LEN as int)
}

/// The day number that a day folder's name gives, if it gives one that fits
/// in a `usize`.
pub open spec fn day_number_of(name: Seq<char>) -> Option<nat> {
    if name.len() >= DAY_PREFIX_LEN && is_decimal(day_digits(name)) && digits_value(
        unsigned_part(day_digits(name)),
    ) <= usize::MAX {
        Some(digits_value(unsigned_part(day_digits(name))))
    } else {
        None
    }
}

/// Decimal text of `n`, without leading zeros.
pub open spec fn decimal(n: nat) -> Seq<char>
    decreases n,
{
    if n < 10 {
        seq![digit_char(n)]
    } else {
        decimal(n / 10).push(digit_char(n % 10))
    }
}

/// Decimal text of `n`, padded with zeros to at least two digits.
pub open spec fn two_digits(n: nat) -> Seq<char> {
    if n < 10 {
        seq!['0'] + decimal(n)
    } else {
        decimal(n)
    }
}

/// `base` joined with `name` as a path: an absolute `name` stands alone, and
/// a separator is put in only where `base` does not already end with one.
pub open spec fn join_path(base: Seq<char>, name: Seq<char>) -> Seq<char> {
    if name.len() > 0 && name[0] == '/' {
        name
    } else if base.len() == 0 || base.last() == '/' {
        base + name
    } else {
        base + seq!['/'] + name
    }
}

/// Address of a day's puzzle page, followed by `postfix`.
pub open spec fn puzzle_url_of(year: Seq<char>, day: nat, postfix: Seq<char>) -> Seq<char> {
    "https://adventofcode.com/"@ + year + "/day/"@ + decimal(day) + postfix
}

/// The HTTP statuses that count as a refusal: client and server errors.
pub open spec fn is_refusal(status: u16) -> bool {
    400 <= status <= 599
}

proof fn lemma_digits_value_grows(s: Seq<char>, k: int)
    requires
        0 <= k <= s.len(),
    ensures
        digits_value(s.take(k)) <= digits_value(s),
    decreases s.len() - k,
{
    if k < s.len() {
        lemma_digits_value_grows(s, k + 1);
        assert(s.take(k + 1).drop_last() =~= s.take(k));
    } else {
        assert(s.take(k) =~= s);
    }
}

/// The one-character string of a decimal digit.
fn digit_str(d: usize) -> (r: &'static str)
    requires
        d < 10,
    ensures
        r@ == seq![digit_char(d as nat)],
{
    proof {
        reveal_strlit("0");
        reveal_strlit("1");
        reveal_strlit("2");
        reveal_strlit("3");
        reveal_strlit("4");
        reveal_strlit("5");
        reveal_strlit("6");
        reveal_strlit("7");
        reveal_strlit("8");
        reveal_strlit("9");
    }
    let r = if d == 0 {
        "0"
    } else if d == 1 {
        "1"
    } else if d == 2 {
        "2"
    } else if d == 3 {
        "3"
    } else if d == 4 {
        "4"
    } else if d == 5 {
        "5"
    } else if d == 6 {
        "6"
    } else if d == 7 {
        "7"
    } else if d == 8 {
        "8"
    } else {
        "9"
    };
    assert(r@ =~= seq![digit_char(d as nat)]);
    r
}

/// Appends the decimal text of `n` to `out`.
fn append_decimal(out: &mut String, n: usize)
    ensures
        final(out)@ == old(out)@ + decimal(n as nat),
    decreases n,
{
    if n >= 10 {
        append_decimal(out, n / 10);
    }
    let ghost mid = out@;
    out.append(digit_str(n % 10));
    if n >= 10 {
        assert(out@ =~= old(out)@ + decimal(n as nat));
    } else {
        assert(out@ =~= old(out)@ + decimal(n as nat));
    }
}

/// Reads a number written as an optional `+` and decimal digits, as the
/// standard library reads a `usize`; `None` where the text is no such number
/// or the number does not fit.
fn parse_decimal(s: &str) -> (r: Option<usize>)
    ensures
        r is Some <==> is_decimal(s@) && digits_value(unsigned_part(s@)) <= usize::MAX,
        r is Some ==> r->Some_0 as nat == digits_value(unsigned_part(s@)),
{
    let n = s.unicode_len();
    let start: usize = if n > 0 && s.get_char(0) == '+' {
        1
    } else {
        0
    };
    let ghost d = unsigned_part(s@);
    assert(d =~= s@.skip(start as int));
    if start >= n {
        return None;
    }
    let mut i: usize = start;
    let mut v: usize = 0;
    while i < n
        invariant
            n == s@.len(),
            start <= i <= n,
            start < n,
            d == s@.skip(start as int),
            d == unsigned_part(s@),
            forall|k: int| 0 <= k < i - start ==> is_digit(d[k]),
            v as nat == digits_value(d.take(i - start)),
        decreases n - i,
    {
        let c = s.get_char(i);
        assert(d[i - start] == c);
        if !('0' <= c && c <= '9') {
            assert(!is_digit(d[i - start]));
            return None;
        }
        let dv = (c as u32 - '0' as u32) as usize;
        assert(d.take(i + 1 - start).drop_last() =~= d.take(i - start));
        assert(d.take(i + 1 - start).last() == c);
        assert(digits_value(d.take(i + 1 - start)) == v * 10 + dv);
        match v.checked_mul(10) {
            None => {
                proof {
                    if is_decimal(s@) {
                        lemma_digits_value_grows(d, (i + 1 - start) as int);
                    }
                }
                return None;
            },
            Some(t) => match t.checked_add(dv) {
                None => {
                    proof {
                        if is_decimal(s@) {
                            lemma_digits_value_grows(d, (i + 1 - start) as int);
                        }
                    }
                    return None;
                },
                Some(w) => {
                    v = w;
                },
            },
        }
        i += 1;
    }
    assert(d.take(n - start) =~= d);
    Some(v)
}

/// Joins `name` onto the path `base`: an absolute `name` stands alone, and a
/// separator is put in only where `base` does not already end with one.
pub fn join(base: &str, name: &str) -> (r: String)
    ensures
        r@ == join_path(base@, name@),
{
    let nb = base.unicode_len();
    let nn = name.unicode_len();
    let mut r = String::new();
    if nn > 0 && name.get_char(0) == '/' {
        r.append(name);
        assert(r@ =~= name@);
        return r;
    }
    r.append(base);
    if nb > 0 && base.get_char(nb - 1) != '/' {
        proof {
            reveal_strlit("/");
        }
        r.append("/");
    }
    r.append(name);
    assert(r@ =~= join_path(base@, name@));
    r
}

impl RunContext {
    /// The day number that the day folder's name carries after its prefix;
    /// `BadDayName` where what follows the prefix is not a number that fits.
    pub fn day_number(&self) -> (r: Result<usize, AocError>)
        ensures
            day_number_of(self.day_name@) is Some ==> r is Ok && r->Ok_0 as nat == day_number_of(
                self.day_name@,
            )->Some_0,
            day_number_of(self.day_name@) is None ==> r is Err && r->Err_0 == AocError::BadDayName(
                self.day_name,
            ),
    {
        let n = self.day_name.unicode_len();
        if n < DAY_PREFIX_LEN {
            return Err(AocError::BadDayName(self.day_name.clone()));
        }
        let digits = self.day_name.as_str().substring_char(DAY_PREFIX_LEN, n);
        assert(digits@ =~= day_digits(self.day_name@));
        match parse_decimal(digits) {
            Some(v) => Ok(v),
            None => Err(AocError::BadDayName(self.day_name.clone())),
        }
    }

    /// The folder of the day: the day's name joined onto the project folder.
    pub fn day_folder(&self) -> (r: String)
        ensures
            r@ == join_path(self.base_folder@, self.day_name@),
    {
        join(self.base_folder.as_str(), self.day_name.as_str())
    }

    /// The address to fetch the day's puzzle input from, or `None` where the
    /// input file is already there: then nothing is fetched, so running
    /// again leaves the file as it is.
    pub fn input_request(&self, config: &Config, input_exists: bool) -> (r: Result<
        Option<String>,
        AocError,
    >)
        ensures
            input_exists ==> r == Ok::<Option<String>, AocError>(None),
            !input_exists && day_number_of(self.day_name@) is Some ==> r is Ok && r->Ok_0 is Some
                && r->Ok_0->Some_0@ == puzzle_url_of(
                config.year@,
                day_number_of(self.day_name@)->Some_0,
                "/input"@,
            ),
            !input_exists && day_number_of(self.day_name@) is None ==> r is Err && r->Err_0
                == AocError::BadDayName(self.day_name),
    {
        if input_exists {
            return Ok(None);
        }
        let day = self.day_number()?;
        Ok(Some(puzzle_url(config, day, "/input")))
    }

    /// The address of the day's puzzle page, where its examples are.
    pub fn page_request(&self, config: &Config) -> (r: Result<String, AocError>)
        ensures
            day_number_of(self.day_name@) is Some ==> r is Ok && r->Ok_0@ == puzzle_url_of(
                config.year@,
                day_number_of(self.day_name@)->Some_0,
                Seq::empty(),
            ),
            day_number_of(self.day_name@) is None ==> r is Err && r->Err_0 == AocError::BadDayName(
                self.day_name,
            ),
    {
        let day = self.day_number()?;
        proof {
            reveal_strlit("");
            assert(""@ =~= Seq::<char>::empty());
        }
        Ok(puzzle_url(config, day, ""))
    }
}

/// Address of the puzzle page of day `day` of the configured year, followed
/// by `postfix`.
pub fn puzzle_url(config: &Config, day: usize, postfix: &str) -> (r: String)
    ensures
        r@ == puzzle_url_of(config.year@, day as nat, postfix@),
{
    let mut r = String::new();
    r.append("https://adventofcode.com/");
    r.append(config.year.as_str());
    r.append("/day/");
    append_decimal(&mut r, day);
    r.append(postfix);
    assert(r@ =~= puzzle_url_of(config.year@, day as nat, postfix@));
    r
}

/// Value of the `Cookie` header that carries the session credential.
pub fn session_cookie(config: &Config) -> (r: String)
    ensures
        r@ == "session="@ + config.session@,
{
    let mut r = String::new();
    r.append("session=");
    r.append(config.session.as_str());
    r
}

/// Classifies the status of a response: a client or server error means the
/// resource is not available (yet); anything else lets the body through.
pub fn check_status(status: u16) -> (r: Result<(), AocError>)
    ensures
        is_refusal(status) ==> r == Err::<(), AocError>(AocError::NotAvailable),
        !is_refusal(status) ==> r is Ok,
{
    if 400 <= status && status <= 599 {
        Err(AocError::NotAvailable)
    } else {
        Ok(())
    }
}

/// Name of the file that holds fixture number `index`: `test` and the index
/// in at least two digits, then `.txt`.
pub fn fixture_file_name(index: usize) -> (r: String)
    ensures
        r@ == "test"@ + two_digits(index as nat) + ".txt"@,
{
    let mut r = String::new();
    r.append("test");
    if index < 10 {
        r.append("0");
    }
    append_decimal(&mut r, index);
    r.append(".txt");
    proof {
        reveal_strlit("0");
    }
    assert(r@ =~= "test"@ + two_digits(index as nat) + ".txt"@);
    r
}

} // verus!
