//! Mining-side message tags and key configuration.
use vstd::prelude::*;
use vstd::string::*;
use vstd::utf8::*;

verus! {

/// The tag of a message that the miner exchanges with the node.
#[derive(Clone, Copy, PartialEq, Eq, Structural, Debug)]
pub enum MiningWire {
    Mined,
    Candidate,
    SetPubKey,
    Enable,
}

impl MiningWire {
    /// The wire's verb.
    pub fn verb(&self) -> (r: &'static str)
        ensures
            r@ == match self {
                MiningWire::Mined => "mined"@,
                MiningWire::SetPubKey => "setpubkey"@,
                MiningWire::Candidate => "candidate"@,
                MiningWire::Enable => "enable"@,
            },
    {
        match self {
            MiningWire::Mined => "mined",
            MiningWire::SetPubKey => "setpubkey",
            MiningWire::Candidate => "candidate",
            MiningWire::Enable => "enable",
        }
    }
}

/// A mining key configuration: a share, a threshold `m` and the keys.
#[derive(Debug, Clone)]
pub struct MiningKeyConfig {
    pub share: u64,
    pub m: u64,
    pub keys: Vec<String>,
}

/// Index of the first `sep` in `b`, or its length when there is none.
pub open spec fn first_sep(b: Seq<u8>, sep: u8) -> nat
    decreases b.len(),
{
    if b.len() == 0 || b[0] == sep {
        0
    } else {
        1 + first_sep(b.drop_first(), sep)
    }
}

/// The pieces of `b` between occurrences of `sep`: one more piece than there
/// are separators.
pub open spec fn split_on(b: Seq<u8>, sep: u8) -> Seq<Seq<u8>>
    decreases b.len(),
{
    let k = first_sep(b, sep);
    if k >= b.len() {
        seq![b]
    } else {
        seq![b.subrange(0, k as int)] + split_on(b.subrange((k + 1) as int, b.len() as int), sep)
    }
}

/// Why decimal text does not give a `u64`.
#[derive(Clone, Copy, PartialEq, Eq, Structural, Debug)]
pub enum NumberError {
    Empty,
    InvalidDigit,
    TooLarge,
}

/// Reads decimal digits of `d` from `i` on, onto the value `acc`.
pub open spec fn scan_digits(d: Seq<u8>, i: nat, acc: nat) -> Result<nat, NumberError>
    decreases d.len() - i,
{
    if i >= d.len() {
        Ok(acc)
    } else if !(48 <= d[i as int] <= 57) {
        Err(NumberError::InvalidDigit)
    } else if acc * 10 + (d[i as int] - 48) > u64::MAX {
        Err(NumberError::TooLarge)
    } else {
        scan_digits(d, i + 1, (acc * 10 + (d[i as int] - 48)) as nat)
    }
}

/// Decimal text as a `u64`: an optional plus sign, then digits.
pub open spec fn u64_text(b: Seq<u8>) -> Result<nat, NumberError> {
    if b.len() == 0 {
        Err(NumberError::Empty)
    } else if b[0] == 43 {
        if b.len() == 1 {
            Err(NumberError::InvalidDigit)
        } else {
            scan_digits(b, 1, 0)
        }
    } else {
        scan_digits(b, 0, 0)
    }
}

impl NumberError {
    /// The message of the matching integer parse error.
    pub open spec fn message(self) -> Seq<char> {
        match self {
            NumberError::Empty => "cannot parse integer from empty string"@,
            NumberError::InvalidDigit => "invalid digit found in string"@,
            NumberError::TooLarge => "number too large to fit in target type"@,
        }
    }

    pub fn to_message(self) -> (r: String)
        ensures
            r@ == self.message(),
    {
        match self {
            NumberError::Empty => "cannot parse integer from empty string".to_owned(),
            NumberError::InvalidDigit => "invalid digit found in string".to_owned(),
            NumberError::TooLarge => "number too large to fit in target type".to_owned(),
        }
    }
}

/// Parses decimal text, with an optional plus sign, as a `u64`.
pub fn parse_u64(s: &str) -> (r: Result<u64, NumberError>)
    ensures
        match u64_text(s.spec_bytes()) {
            Ok(v) => v <= u64::MAX && r == Ok::<u64, NumberError>(v as u64),
            Err(e) => r == Err::<u64, NumberError>(e),
        },
{
    let b = s.as_bytes();
    if b.len() == 0 {
        return Err(NumberError::Empty);
    }
    let mut i: usize = 0;
    if b[0] == 43 {
        if b.len() == 1 {
            return Err(NumberError::InvalidDigit);
        }
        i = 1;
    }
    let ghost start = i as nat;
    let mut acc: u64 = 0;
    proof {
        lemma_scan_bound(b@, start, 0);
    }
    while i < b.len()
        invariant
            b@ == s.spec_bytes(),
            i <= b@.len(),
            u64_text(b@) == scan_digits(b@, start, 0),
            scan_digits(b@, start, 0) == scan_digits(b@, i as nat, acc as nat),
        decreases b@.len() - i,
    {
        let c = b[i];
        assert(c == b@[i as int]);
        if c < 48 || c > 57 {
            assert(scan_digits(b@, i as nat, acc as nat) == Err::<nat, NumberError>(
                NumberError::InvalidDigit,
            ));
            return Err(NumberError::InvalidDigit);
        }
        let d = (c - 48) as u64;
        if acc > (u64::MAX - d) / 10 {
            proof {
                assert(acc * 10 + d > u64::MAX) by (nonlinear_arith)
                    requires acc > (u64::MAX - d) / 10, d <= 9;
                assert(scan_digits(b@, i as nat, acc as nat) == Err::<nat, NumberError>(
                    NumberError::TooLarge,
                ));
            }
            return Err(NumberError::TooLarge);
        }
        proof {
            assert(acc * 10 + d <= u64::MAX) by (nonlinear_arith)
                requires acc <= (u64::MAX - d) / 10, d <= 9;
        }
        acc = acc * 10 + d;
        i = i + 1;
    }
    Ok(acc)
}

proof fn lemma_scan_bound(d: Seq<u8>, i: nat, acc: nat)
    requires
        acc <= u64::MAX,
    ensures
        scan_digits(d, i, acc) matches Ok(v) ==> v <= u64::MAX,
    decreases d.len() - i,
{
    if i < d.len() && 48 <= d[i as int] <= 57 && acc * 10 + (d[i as int] - 48) <= u64::MAX {
        lemma_scan_bound(d, i + 1, (acc * 10 + (d[i as int] - 48)) as nat);
    }
}

proof fn lemma_first_sep(b: Seq<u8>, sep: u8, i: int)
    requires
        0 <= i <= b.len(),
        forall|j: int| 0 <= j < i ==> b[j] != sep,
        i == b.len() || b[i] == sep,
    ensures
        first_sep(b, sep) == i,
    decreases i,
{
    if i > 0 {
        assert forall|j: int| 0 <= j < i - 1 implies b.drop_first()[j] != sep by {
            assert(b.drop_first()[j] == b[j + 1]);
        }
        lemma_first_sep(b.drop_first(), sep, i - 1);
    }
}

/// The index of the first `sep` byte of `s`, or its length.
fn find_byte(s: &str, sep: u8) -> (r: usize)
    ensures
        r == first_sep(s.spec_bytes(), sep),
        r <= s.spec_bytes().len(),
{
    let b = s.as_bytes();
    let mut i: usize = 0;
    while i < b.len() && b[i] != sep
        invariant
            b@ == s.spec_bytes(),
            i <= b@.len(),
            forall|j: int| 0 <= j < i ==> b@[j] != sep,
        decreases b@.len() - i,
    {
        i = i + 1;
    }
    proof {
        lemma_first_sep(b@, sep, i as int);
    }
    i
}

/// Splits `s` around an ASCII separator at byte `k`: the text before it and
/// the text after it.
fn split_around(s: &str, k: usize) -> (r: (&str, &str))
    requires
        k < s.spec_bytes().len(),
        s.spec_bytes()[k as int] < 128,
    ensures
        r.0.spec_bytes() == s.spec_bytes().subrange(0, k as int),
        r.1.spec_bytes() == s.spec_bytes().subrange(k + 1, s.spec_bytes().len() as int),
{
    let ghost bytes = s.spec_bytes();
    proof {
        encode_utf8_valid_utf8(s@);
        is_char_boundary_iff_not_is_continuation_byte(bytes, k as int);
    }
    let (before, rest) = s.split_at(k);
    proof {
        let rb = rest.spec_bytes();
        valid_utf8_split(bytes, k as int);
        assert(rb =~= bytes.subrange(k as int, bytes.len() as int));
        assert(valid_utf8(rb));
        reveal_with_fuel(is_char_boundary, 2);
        if rb.len() > 1 {
            is_char_boundary_iff_not_is_continuation_byte(rb.subrange(1, rb.len() as int), 0);
        }
        assert(is_char_boundary(rb, 1));
    }
    let (_, after) = rest.split_at(1);
    proof {
        assert(after.spec_bytes() =~= bytes.subrange(k + 1, bytes.len() as int));
    }
    (before, after)
}

proof fn lemma_split_on_len(b: Seq<u8>, sep: u8)
    ensures
        split_on(b, sep).len() >= 1,
        split_on(b, sep).len() == 1 <==> first_sep(b, sep) >= b.len(),
    decreases b.len(),
{
    let k = first_sep(b, sep);
    if k < b.len() {
        lemma_split_on_len(b.subrange((k + 1) as int, b.len() as int), sep);
    }
}

proof fn lemma_first_sep_is_sep(b: Seq<u8>, sep: u8)
    ensures
        first_sep(b, sep) <= b.len(),
        first_sep(b, sep) < b.len() ==> b[first_sep(b, sep) as int] == sep,
    decreases b.len(),
{
    if b.len() > 0 && b[0] != sep {
        lemma_first_sep_is_sep(b.drop_first(), sep);
    }
}

/// The pieces of `s` between commas, as owned strings.
fn split_commas(s: &str) -> (r: Vec<String>)
    ensures
        r@.len() == split_on(s.spec_bytes(), 44).len(),
        forall|i: int|
            0 <= i < r@.len() ==> encode_utf8((#[trigger] r@[i])@) == split_on(s.spec_bytes(), 44)[i],
{
    let mut out: Vec<String> = Vec::new();
    let ghost mut pieces: Seq<Seq<u8>> = Seq::empty();
    let mut cur: &str = s;
    loop
        invariant
            out@.len() == pieces.len(),
            forall|i: int| 0 <= i < out@.len() ==> encode_utf8((#[trigger] out@[i])@) == pieces[i],
            split_on(s.spec_bytes(), 44) == pieces + split_on(cur.spec_bytes(), 44),
        decreases cur.spec_bytes().len(),
    {
        let k = find_byte(cur, 44);
        if k >= cur.as_bytes().len() {
            let ghost cb = cur.spec_bytes();
            out.push(cur.to_owned());
            proof {
                assert(split_on(cb, 44) == seq![cb]);
                pieces = pieces.push(cb);
                assert(split_on(s.spec_bytes(), 44) =~= pieces);
            }
            return out;
        }
        proof {
            lemma_first_sep_is_sep(cur.spec_bytes(), 44);
        }
        let (piece, rest) = split_around(cur, k);
        let ghost cb = cur.spec_bytes();
        out.push(piece.to_owned());
        proof {
            pieces = pieces.push(piece.spec_bytes());
            assert(split_on(cb, 44) == seq![cb.subrange(0, k as int)] + split_on(
                rest.spec_bytes(),
                44,
            ));
            assert(split_on(s.spec_bytes(), 44) =~= pieces + split_on(rest.spec_bytes(), 44));
        }
        cur = rest;
    }
}

impl MiningKeyConfig {
    /// Parses "share,m:key1,key2,...": exactly one colon, exactly one comma
    /// before it, two decimal numbers, and the comma-separated keys after it.
    pub fn parse(s: &str) -> (r: Result<MiningKeyConfig, String>)
        ensures
            ({
                let parts = split_on(s.spec_bytes(), 58);
                let sm = split_on(parts[0], 44);
                if parts.len() != 2 {
                    r is Err && r->Err_0@ == "Invalid format. Expected 'share,m:key1,key2,key3'"@
                } else if sm.len() != 2 {
                    r is Err && r->Err_0@ == "Invalid share,m format"@
                } else if u64_text(sm[0]) is Err {
                    r is Err && r->Err_0@ == u64_text(sm[0])->Err_0.message()
                } else if u64_text(sm[1]) is Err {
                    r is Err && r->Err_0@ == u64_text(sm[1])->Err_0.message()
                } else {
                    let keys = split_on(parts[1], 44);
                    &&& r is Ok
                    &&& r->Ok_0.share == u64_text(sm[0])->Ok_0
                    &&& r->Ok_0.m == u64_text(sm[1])->Ok_0
                    &&& r->Ok_0.keys@.len() == keys.len()
                    &&& forall|i: int|
                        0 <= i < keys.len() ==> encode_utf8((#[trigger] r->Ok_0.keys@[i])@)
                            == keys[i]
                }
            }),
    {
        let ghost b = s.spec_bytes();
        let k = find_byte(s, 58);
        proof {
            lemma_split_on_len(b, 58);
            lemma_first_sep_is_sep(b, 58);
        }
        if k >= s.as_bytes().len() {
            return Err("Invalid format. Expected 'share,m:key1,key2,key3'".to_owned());
        }
        let (left, right) = split_around(s, k);
        proof {
            lemma_split_on_len(right.spec_bytes(), 58);
            assert(split_on(b, 58) == seq![left.spec_bytes()] + split_on(right.spec_bytes(), 58));
        }
        if find_byte(right, 58) < right.as_bytes().len() {
            return Err("Invalid format. Expected 'share,m:key1,key2,key3'".to_owned());
        }
        assert(split_on(b, 58) =~= seq![left.spec_bytes(), right.spec_bytes()]);
        let c = find_byte(left, 44);
        proof {
            lemma_split_on_len(left.spec_bytes(), 44);
            lemma_first_sep_is_sep(left.spec_bytes(), 44);
        }
        if c >= left.as_bytes().len() {
            return Err("Invalid share,m format".to_owned());
        }
        let (share_text, m_text) = split_around(left, c);
        proof {
            lemma_split_on_len(m_text.spec_bytes(), 44);
            assert(split_on(left.spec_bytes(), 44) == seq![share_text.spec_bytes()] + split_on(
                m_text.spec_bytes(),
                44,
            ));
        }
        if find_byte(m_text, 44) < m_text.as_bytes().len() {
            return Err("Invalid share,m format".to_owned());
        }
        assert(split_on(left.spec_bytes(), 44) =~= seq![share_text.spec_bytes(), m_text.spec_bytes()]);
        let share = match parse_u64(share_text) {
            Ok(v) => v,
            Err(e) => {
                return Err(e.to_message());
            },
        };
        let m = match parse_u64(m_text) {
            Ok(v) => v,
            Err(e) => {
                return Err(e.to_message());
            },
        };
        let keys = split_commas(right);
        Ok(MiningKeyConfig { share, m, keys })
    }
}

impl std::str::FromStr for MiningKeyConfig {
    type Err = String;

    fn from_str(s: &str) -> Result<Self, Self::Err> {
        MiningKeyConfig::parse(s)
    }
}

} // verus!
