use vstd::prelude::*;
use vstd::string::StringExecFns;

verus! {

/// Whether `c` has the Unicode `White_Space` property: the ASCII controls U+0009 to U+000D,
/// the space, U+0085, U+00A0, U+1680, U+2000 to U+200A, U+2028, U+2029, U+202F, U+205F and
/// U+3000.
pub open spec fn white_space(c: char) -> bool {
    let v = c as u32;
    ||| 0x09 <= v <= 0x0d
    ||| v == 0x20
    ||| v == 0x85
    ||| v == 0xa0
    ||| v == 0x1680
    ||| 0x2000 <= v <= 0x200a
    ||| v == 0x2028
    ||| v == 0x2029
    ||| v == 0x202f
    ||| v == 0x205f
    ||| v == 0x3000
}

/// Whether every character of `s` is white space (an empty `s` included).
pub open spec fn blank(s: Seq<char>) -> bool {
    forall|i: int| 0 <= i < s.len() ==> white_space(#[trigger] s[i])
}

/// `t` is `s` with the characters before index `a` and from index `b` on cut off, all of them
/// white space, and `t` neither starts nor ends with white space.
pub open spec fn trimmed_between(s: Seq<char>, t: Seq<char>, a: int, b: int) -> bool {
    &&& 0 <= a <= b <= s.len()
    &&& t == s.subrange(a, b)
    &&& forall|i: int| 0 <= i < a ==> white_space(#[trigger] s[i])
    &&& forall|i: int| b <= i < s.len() ==> white_space(#[trigger] s[i])
    &&& a < b ==> !white_space(s[a]) && !white_space(s[b - 1])
}

/// `str::trim`, which removes the leading and trailing characters that have the Unicode
/// `White_Space` property.  The contract says that the result is the slice of `s` between
/// two cut points, with only white space before the first and after the second, and that a
/// non-empty result neither starts nor ends with white space.
#[verifier::external_body]
fn trim(s: &str) -> (trimmed: &str)
    ensures
        exists|a: int, b: int| trimmed_between(s@, trimmed@, a, b),
{
    s.trim()
}

/// Whether `s` is empty once trimmed, that is, whether it holds nothing but white space.
pub fn is_blank(s: &str) -> (res: bool)
    ensures
        res == blank(s@),
{
    let trimmed = trim(s);
    let res = trimmed.is_empty();
    proof {
        let (a, b) = choose|a: int, b: int| trimmed_between(s@, trimmed@, a, b);
        if a == b {
            assert(forall|i: int| 0 <= i < s@.len() ==> white_space(#[trigger] s@[i]));
        } else {
            assert(trimmed@.len() > 0);
            assert(!white_space(s@[a]));
        }
    }
    res
}

/// The port a Minecraft server listens on unless told otherwise.
pub fn default_port() -> (port: u16)
    ensures
        port == 25565,
{
    25565
}

/// A Minecraft server to query: its host name or IP address, and its port.
pub struct Address {
    pub url: String,
    pub port: u16,
}

/// The decimal digits of `n`, most significant first, without leading zeros.
pub open spec fn decimal(n: nat) -> Seq<char>
    decreases n,
{
    if n < 10 {
        seq![digit_char(n)]
    } else {
        decimal(n / 10).push(digit_char(n % 10))
    }
}

/// The character of the decimal digit `d`.
pub open spec fn digit_char(d: nat) -> char {
    (48 + d) as char
}

/// The one-character string of the decimal digit `d`.
fn digit_str(d: u16) -> (s: &'static str)
    requires
        d < 10,
    ensures
        s@ == seq![digit_char(d as nat)],
{
    let s = match d {
        0 => "0",
        1 => "1",
        2 => "2",
        3 => "3",
        4 => "4",
        5 => "5",
        6 => "6",
        7 => "7",
        8 => "8",
        _ => "9",
    };
    proof {
        reveal_strlit("0");
        reveal_strlit("1");
        reveal_strlit("2");
        reveal_strlit("3");
        reveal_strlit("4");
        reveal_strlit("5");
        reveal_strlit("6");
        reveal_strlit("7");
        reveal_strlit("8");
        reveal_strlit("9");
        assert(s@ =~= seq![digit_char(d as nat)]);
    }
    s
}

/// Appends the decimal digits of `n` to `out`.
fn append_decimal(out: &mut String, n: u16)
    ensures
        final(out)@ == old(out)@ + decimal(n as nat),
    decreases n,
{
    if n >= 10 {
        append_decimal(out, n / 10);
    }
    out.append(digit_str(n % 10));
    assert(final(out)@ =~= old(out)@ + decimal(n as nat));
}

impl Address {
    /// The text of a socket address: the host, a colon, and the port in decimal.
    pub open spec fn socket_text(&self) -> Seq<char> {
        self.url@ + seq![':'] + decimal(self.port as nat)
    }

    /// The `host:port` string that a TCP connection to the server is opened with.
    pub fn socket_address(&self) -> (text: String)
        ensures
            text@ == self.socket_text(),
    {
        let mut text = self.url.clone();
        let colon = ":";
        proof {
            reveal_strlit(":");
        }
        text.append(colon);
        append_decimal(&mut text, self.port);
        assert(text@ =~= self.socket_text());
        text
    }
}

/// Why a status query failed.  Each variant carries the text that its message ends with: the
/// reason, the address that timed out, or the description of the underlying error.
#[derive(Clone, Debug)]
pub enum ApiError {
    /// The query itself is unusable.
    BadRequest(String),
    /// The server did not accept a connection in time.
    Timeout(String),
    /// Talking to the server failed.
    Io(String),
    /// The server's answer is not a status response.
    Parse(String),
}

impl ApiError {
    /// The HTTP status code answered for this error.
    pub open spec fn spec_status_code(&self) -> u16 {
        match self {
            ApiError::BadRequest(_) => 400,
            ApiError::Timeout(_) => 504,
            ApiError::Io(_) => 502,
            ApiError::Parse(_) => 502,
        }
    }

    /// The text of this error.
    pub open spec fn spec_message(&self) -> Seq<char> {
        match self {
            ApiError::BadRequest(reason) => "bad request: "@ + reason@,
            ApiError::Timeout(address) => "connection to "@ + address@ + " timed out"@,
            ApiError::Io(detail) => "I/O error: "@ + detail@,
            ApiError::Parse(detail) => "invalid server response: "@ + detail@,
        }
    }

    /// The HTTP status code answered for this error: 400 for a bad request, 504 for a
    /// timeout, 502 when the server could not be talked to or answered nonsense.
    pub fn status_code(&self) -> (code: u16)
        ensures
            code == self.spec_status_code(),
            400 <= code < 600,
    {
        match self {
            ApiError::BadRequest(_) => 400,
            ApiError::Timeout(_) => 504,
            ApiError::Io(_) | ApiError::Parse(_) => 502,
        }
    }

    /// The text of this error, as it is logged and answered.
    pub fn message(&self) -> (text: String)
        ensures
            text@ == self.spec_message(),
    {
        match self {
            ApiError::BadRequest(reason) => {
                let mut text = String::from_str("bad request: ");
                text.append(reason.as_str());
                text
            },
            ApiError::Timeout(address) => {
                let mut text = String::from_str("connection to ");
                text.append(address.as_str());
                text.append(" timed out");
                text
            },
            ApiError::Io(detail) => {
                let mut text = String::from_str("I/O error: ");
                text.append(detail.as_str());
                text
            },
            ApiError::Parse(detail) => {
                let mut text = String::from_str("invalid server response: ");
                text.append(detail.as_str());
                text
            },
        }
    }
}

/// The reason given when the query names no server.
pub open spec fn empty_url_reason() -> Seq<char> {
    "url cannot be empty"@
}

/// Checks the parameters of a status query: a `url` that is empty or white space only is a
/// bad request; any other names the server to query at `port`.
pub fn check_status_query(url: String, port: u16) -> (checked: Result<Address, ApiError>)
    ensures
        checked is Err <==> blank(url@),
        checked matches Err(e) ==> e matches ApiError::BadRequest(reason) && reason@
            == empty_url_reason(),
        checked matches Ok(address) ==> address.url@ == url@ && address.port == port,
{
    if is_blank(url.as_str()) {
        return Err(ApiError::BadRequest(String::from_str("url cannot be empty")));
    }
    Ok(Address { url, port })
}


/// Whether `c` is one of the ASCII digits `0` to `9`.
pub open spec fn ascii_digit(c: char) -> bool {
    48 <= (c as u32) <= 57
}

/// The number that a string of ASCII digits spells in base 10.
pub open spec fn decimal_value(s: Seq<char>) -> nat
    decreases s.len(),
{
    if s.len() == 0 {
        0
    } else {
        decimal_value(s.drop_last()) * 10 + ((s.last() as u32) - 48) as nat
    }
}

/// `decimal(n)` is the base-10 numeral of `n`: a non-empty string of ASCII digits, without
/// a leading zero unless `n` is zero, that reads back as `n`.
pub proof fn lemma_decimal(n: nat)
    ensures
        decimal(n).len() >= 1,
        forall|i: int| 0 <= i < decimal(n).len() ==> ascii_digit(#[trigger] decimal(n)[i]),
        n != 0 ==> decimal(n)[0] != '0',
        decimal_value(decimal(n)) == n,
    decreases n,
{
    let d = decimal(n);
    if n < 10 {
        assert(d =~= seq![digit_char(n)]);
        assert(d.drop_last() =~= Seq::<char>::empty());
        assert((digit_char(n) as u32) == 48 + n);
        assert(d.last() == digit_char(n));
        assert(decimal_value(Seq::<char>::empty()) == 0);
        assert(decimal_value(d) == decimal_value(d.drop_last()) * 10 + ((d.last() as u32) - 48) as nat);
    } else {
        lemma_decimal(n / 10);
        let front = decimal(n / 10);
        assert(d == front.push(digit_char(n % 10)));
        assert(d.drop_last() =~= front);
        assert((digit_char(n % 10) as u32) == 48 + n % 10);
        assert forall|i: int| 0 <= i < d.len() implies ascii_digit(#[trigger] d[i]) by {
            if i < front.len() {
                assert(d[i] == front[i]);
            }
        }
        assert(d[0] == front[0]);
        assert(d.last() == digit_char(n % 10));
        assert(decimal_value(d) == decimal_value(front) * 10 + ((d.last() as u32) - 48) as nat);
        assert(decimal_value(d) == (n / 10) * 10 + n % 10);
    }
}

/// The socket address text is the host, a colon, and the port's base-10 numeral: ASCII
/// digits without a leading zero that read back as the port.
pub proof fn lemma_socket_text(address: Address)
    ensures
        ({
            let text = address.socket_text();
            let host_len = address.url@.len();
            let port_text = text.subrange(host_len as int + 1, text.len() as int);
            &&& text.subrange(0, host_len as int) == address.url@
            &&& text[host_len as int] == ':'
            &&& port_text.len() >= 1
            &&& forall|i: int| 0 <= i < port_text.len() ==> ascii_digit(#[trigger] port_text[i])
            &&& address.port != 0 ==> port_text[0] != '0'
            &&& decimal_value(port_text) == address.port
        }),
{
    let text = address.socket_text();
    let host_len = address.url@.len();
    lemma_decimal(address.port as nat);
    assert(text.subrange(0, host_len as int) =~= address.url@);
    assert(text.subrange(host_len as int + 1, text.len() as int) =~= decimal(address.port as nat));
}

} // verus!
