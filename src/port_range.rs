use vstd::prelude::*;

verus! {

/// The byte that separates the two bounds of a range text.
pub const DASH: u8 = 45;

/// An explicit plus sign, which an unsigned decimal number may begin with.
pub const PLUS: u8 = 43;

/// The byte of the digit zero.
pub const ZERO: u8 = 48;

/// The first port of the range used when no range text is given.
pub const DEFAULT_START: u16 = 1;

/// The last port of the range used when no range text is given.
pub const DEFAULT_END: u16 = 1024;

pub open spec fn is_digit(c: u8) -> bool {
    ZERO <= c <= ZERO + 9
}

pub open spec fn all_digits(s: Seq<u8>) -> bool {
    forall|j: int| 0 <= j < s.len() ==> is_digit(#[trigger] s[j])
}

pub open spec fn no_dash(s: Seq<u8>) -> bool {
    forall|j: int| 0 <= j < s.len() ==> #[trigger] s[j] != DASH
}

/// The value of a sequence of decimal digits, most significant first.
pub open spec fn digits_value(s: Seq<u8>) -> nat
    decreases s.len(),
{
    if s.len() == 0 {
        0
    } else {
        digits_value(s.drop_last()) * 10 + (s.last() - ZERO) as nat
    }
}

/// What an unsigned 16-bit decimal number reads as: an optional plus sign,
/// then at least one digit, with a value that fits in 16 bits.
pub open spec fn spec_parse_u16(s: Seq<u8>) -> Option<u16> {
    let d = if s.len() > 0 && s[0] == PLUS {
        s.drop_first()
    } else {
        s
    };
    if d.len() > 0 && all_digits(d) && digits_value(d) <= u16::MAX {
        Some(digits_value(d) as u16)
    } else {
        None
    }
}

/// The index of the first dash, or the length where there is none.
pub open spec fn first_dash(s: Seq<u8>) -> int
    decreases s.len(),
{
    if s.len() == 0 {
        0
    } else if s[0] == DASH {
        0
    } else {
        1 + first_dash(s.drop_first())
    }
}

/// The bounds that a range text `"<start>-<end>"` stands for: exactly one
/// dash, a number on each side, and `start <= end`.
pub open spec fn spec_parse_range(s: Seq<u8>) -> Option<(u16, u16)> {
    let i = first_dash(s);
    if i < s.len() && no_dash(s.skip(i + 1)) {
        match (spec_parse_u16(s.take(i)), spec_parse_u16(s.skip(i + 1))) {
            (Some(a), Some(b)) => if a <= b {
                Some((a, b))
            } else {
                None
            },
            _ => None,
        }
    } else {
        None
    }
}

/// The ports `start..=end`, ascending.
pub open spec fn range_ports(start: u16, end: u16) -> Seq<u16> {
    Seq::new((end - start + 1) as nat, |i: int| (start + i) as u16)
}

/// Why a scan configuration was refused.
#[derive(Clone, Copy, Debug, PartialEq, Eq, Structural)]
pub enum ConfigError {
    /// The text is not `"<start>-<end>"` with `start <= end`.
    InvalidRange,
    /// The timeout is zero.
    InvalidTimeout,
    /// The concurrency cap is zero.
    InvalidConcurrency,
}

/// A closed interval of ports, `start <= end`.
#[derive(Clone, Copy, Debug, PartialEq, Eq, Structural)]
pub struct PortRange {
    pub start: u16,
    pub end: u16,
}

impl PortRange {
    pub open spec fn wf(self) -> bool {
        self.start <= self.end
    }

    /// The ports of the range, ascending.
    pub open spec fn ports(self) -> Seq<u16> {
        range_ports(self.start, self.end)
    }

    /// The range used when none is given: ports 1 to 1024.
    pub fn default_range() -> (r: PortRange)
        ensures
            r.start == DEFAULT_START,
            r.end == DEFAULT_END,
            r.wf(),
    {
        PortRange { start: DEFAULT_START, end: DEFAULT_END }
    }

    /// Makes a range from its bounds; refuses `start > end` rather than
    /// swapping them.
    pub fn new(start: u16, end: u16) -> (r: Result<PortRange, ConfigError>)
        ensures
            start <= end ==> r == Ok::<PortRange, ConfigError>(PortRange { start, end }),
            start > end ==> r == Err::<PortRange, ConfigError>(ConfigError::InvalidRange),
    {
        if start <= end {
            Ok(PortRange { start, end })
        } else {
            Err(ConfigError::InvalidRange)
        }
    }

    /// The number of ports in the range.
    pub fn len(&self) -> (r: u32)
        requires
            self.wf(),
        ensures
            r == self.end - self.start + 1,
            r == self.ports().len(),
    {
        (self.end - self.start) as u32 + 1
    }

    /// The ports of the range, ascending from `start`.
    pub fn expand(&self) -> (r: Vec<u16>)
        requires
            self.wf(),
        ensures
            r@ == self.ports(),
    {
        let mut r: Vec<u16> = Vec::new();
        let mut p: u16 = self.start;
        loop
            invariant
                self.wf(),
                self.start <= p <= self.end,
                r@ == range_ports(self.start, self.end).take(p - self.start),
            decreases self.end - p,
        {
            r.push(p);
            assert(r@ =~= range_ports(self.start, self.end).take(p - self.start + 1));
            if p == self.end {
                assert(r@ =~= range_ports(self.start, self.end));
                return r;
            }
            p = p + 1;
        }
    }
}

/// Adding one digit to the right of a digit sequence.
proof fn lemma_digits_value_push(s: Seq<u8>, k: int)
    requires
        0 <= k < s.len(),
    ensures
        digits_value(s.take(k + 1)) == digits_value(s.take(k)) * 10 + (s[k] - ZERO) as nat,
{
    assert(s.take(k + 1).drop_last() =~= s.take(k));
}

/// Reads `s[from..to]` as an unsigned 16-bit decimal number.
fn parse_u16_at(s: &[u8], from: usize, to: usize) -> (r: Option<u16>)
    requires
        from <= to <= s@.len(),
    ensures
        r == spec_parse_u16(s@.subrange(from as int, to as int)),
{
    let ghost t = s@.subrange(from as int, to as int);
    let mut i: usize = from;
    if i < to && s[i] == PLUS {
        i = i + 1;
    }
    let ghost d = s@.subrange(i as int, to as int);
    assert(d =~= (if t.len() > 0 && t[0] == PLUS { t.drop_first() } else { t }));
    if i == to {
        return None;
    }
    let mut acc: u32 = 0;
    let mut k: usize = i;
    while k < to
        invariant
            i <= k <= to <= s@.len(),
            d == s@.subrange(i as int, to as int),
            t == s@.subrange(from as int, to as int),
            d == (if t.len() > 0 && t[0] == PLUS {
                t.drop_first()
            } else {
                t
            }),
            all_digits(d.take(k - i)),
            acc as int == if digits_value(d.take(k - i)) < 65536 {
                digits_value(d.take(k - i)) as int
            } else {
                65536
            },
        decreases to - k,
    {
        let c = s[k];
        if c < ZERO || c > ZERO + 9 {
            assert(!is_digit(d[k - i]));
            return None;
        }
        proof {
            lemma_digits_value_push(d, k - i);
        }
        acc = acc * 10 + (c - ZERO) as u32;
        if acc > 65536 {
            acc = 65536;
        }
        k = k + 1;
        assert(all_digits(d.take(k - i))) by {
            assert forall|j: int| 0 <= j < k - i implies is_digit(#[trigger] d.take(k - i)[j]) by {
                if j < k - i - 1 {
                    assert(d.take(k - i)[j] == d.take(k - i - 1)[j]);
                }
            }
        }
    }
    assert(d.take(k - i) =~= d);
    if acc <= 65535 {
        Some(acc as u16)
    } else {
        None
    }
}

/// The bounds written in a range text, or `None` where it is not
/// `"<start>-<end>"` with `start <= end`.
pub fn parse_range_bytes(s: &[u8]) -> (r: Option<(u16, u16)>)
    ensures
        r == spec_parse_range(s@),
{
    let n = s.len();
    let mut i: usize = 0;
    while i < n && s[i] != DASH
        invariant
            i <= n == s@.len(),
            forall|j: int| 0 <= j < i ==> s@[j] != DASH,
        decreases n - i,
    {
        i = i + 1;
    }
    proof {
        lemma_first_dash(s@, i as int);
    }
    if i == n {
        return None;
    }
    let mut k: usize = i + 1;
    while k < n
        invariant
            i < k <= n == s@.len(),
            forall|j: int| i < j < k ==> s@[j] != DASH,
            first_dash(s@) == i,
        decreases n - k,
    {
        if s[k] == DASH {
            assert(s@.skip(i + 1)[k - i - 1] == DASH);
            return None;
        }
        k = k + 1;
    }
    assert(no_dash(s@.skip(i + 1)));
    assert(s@.take(i as int) =~= s@.subrange(0, i as int));
    assert(s@.skip(i + 1) =~= s@.subrange(i + 1, n as int));
    let a = parse_u16_at(s, 0, i);
    let b = parse_u16_at(s, i + 1, n);
    match (a, b) {
        (Some(a), Some(b)) => {
            if a <= b {
                Some((a, b))
            } else {
                None
            }
        },
        _ => None,
    }
}

/// `first_dash` is the first index that holds a dash, or the length.
proof fn lemma_first_dash(s: Seq<u8>, i: int)
    requires
        0 <= i <= s.len(),
        forall|j: int| 0 <= j < i ==> s[j] != DASH,
        i < s.len() ==> s[i] == DASH,
    ensures
        first_dash(s) == i,
    decreases s.len(),
{
    if s.len() > 0 && s[0] != DASH {
        lemma_first_dash(s.drop_first(), i - 1);
    }
}

/// Parses `"<start>-<end>"` into a range; fails on anything else, and on
/// `start > end`.
pub fn parse(text: &str) -> (r: Result<PortRange, ConfigError>)
    ensures
        r matches Ok(pr) ==> spec_parse_range(text_bytes(text@)) == Some((pr.start, pr.end)) && pr.wf(),
        r is Err <==> spec_parse_range(text_bytes(text@)) is None,
        r matches Err(e) ==> e == ConfigError::InvalidRange,
{
    match parse_range_bytes(text.as_bytes()) {
        Some((a, b)) => Ok(PortRange { start: a, end: b }),
        None => Err(ConfigError::InvalidRange),
    }
}

/// The bytes of a text.
pub open spec fn text_bytes(t: Seq<char>) -> Seq<u8> {
    vstd::utf8::encode_utf8(t)
}

/// The bounds to scan for an optional range text: those it gives, or ports
/// 1 to 1024 where it is absent or cannot be read.
pub open spec fn spec_extract_ports(port_range: Option<Seq<char>>) -> (u16, u16) {
    match port_range {
        Some(t) => match spec_parse_range(text_bytes(t)) {
            Some(bounds) => bounds,
            None => (DEFAULT_START, DEFAULT_END),
        },
        None => (DEFAULT_START, DEFAULT_END),
    }
}

/// The bounds to scan for an optional range text: those it gives, or ports
/// 1 to 1024 where it is absent or cannot be read.
pub fn extract_ports(port_range: &Option<String>) -> (r: (u16, u16))
    ensures
        r == spec_extract_ports(
            match port_range {
                Some(t) => Some(t@),
                None => None,
            },
        ),
        r.0 <= r.1,
{
    match port_range {
        Some(t) => match parse(t.as_str()) {
            Ok(pr) => (pr.start, pr.end),
            Err(_) => (DEFAULT_START, DEFAULT_END),
        },
        None => (DEFAULT_START, DEFAULT_END),
    }
}

/// A range text `"<start>-<end>"` written in plain digits with
/// `start <= end` is read as exactly those bounds, and expands to
/// `end - start + 1` ports, ascending from `start`.
pub proof fn lemma_valid_range_text_expands(left: Seq<u8>, right: Seq<u8>)
    requires
        left.len() > 0,
        right.len() > 0,
        all_digits(left),
        all_digits(right),
        digits_value(left) <= digits_value(right) <= u16::MAX,
    ensures
        spec_parse_range(left + seq![DASH] + right) == Some(
            (digits_value(left) as u16, digits_value(right) as u16),
        ),
        ({
            let a = digits_value(left) as u16;
            let b = digits_value(right) as u16;
            &&& range_ports(a, b).len() == b - a + 1
            &&& range_ports(a, b)[0] == a
            &&& forall|i: int, j: int|
                0 <= i < j < range_ports(a, b).len() ==> range_ports(a, b)[i] < range_ports(a, b)[j]
        }),
{
    let s = left + seq![DASH] + right;
    let i = left.len() as int;
    assert forall|j: int| 0 <= j < i implies s[j] != DASH by {
        assert(s[j] == left[j]);
        assert(is_digit(left[j]));
    }
    assert(s[i] == DASH);
    lemma_first_dash(s, i);
    assert(s.take(i) =~= left);
    assert(s.skip(i + 1) =~= right);
    assert(is_digit(left[0]));
    assert(is_digit(right[0]));
    assert forall|j: int| 0 <= j < right.len() implies #[trigger] right[j] != DASH by {
        assert(is_digit(right[j]));
    }
}

/// A range text is refused where it has no dash, where a side is not a
/// number or holds a second dash, and where the start exceeds the end: the
/// bounds are never swapped.
pub proof fn lemma_malformed_range_text_is_refused(left: Seq<u8>, right: Seq<u8>)
    ensures
        no_dash(left) ==> spec_parse_range(left) is None,
        no_dash(left) && (spec_parse_u16(left) is None || spec_parse_u16(right) is None
            || !no_dash(right)) ==> spec_parse_range(left + seq![DASH] + right) is None,
        no_dash(left) && no_dash(right) && spec_parse_u16(left) is Some && spec_parse_u16(right) is Some
            && spec_parse_u16(left).unwrap() > spec_parse_u16(right).unwrap() ==> spec_parse_range(
            left + seq![DASH] + right,
        ) is None,
{
    if no_dash(left) {
        lemma_first_dash(left, left.len() as int);
        let s = left + seq![DASH] + right;
        let i = left.len() as int;
        assert forall|j: int| 0 <= j < i implies s[j] != DASH by {
            assert(s[j] == left[j]);
        }
        lemma_first_dash(s, i);
        assert(s.take(i) =~= left);
        assert(s.skip(i + 1) =~= right);
    }
}

} // verus!
