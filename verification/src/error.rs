use vstd::prelude::*;
use vstd::string::StringExecFns;

verus! {

/// An I/O error, carried through as it came.
#[verifier::external_type_specification]
#[verifier::external_body]
pub struct ExIoError(std::io::Error);

/// Why a trace could not be loaded.
#[derive(Debug)]
pub enum ReplayError {
    /// Reading the trace failed.
    Io(std::io::Error),
    /// A JSONL line could not be parsed as a JSON object.
    Decode { line: usize, message: String },
}

/// The decimal digit for `d < 10`.
pub open spec fn digit_char(d: nat) -> char {
    (d + 48) as char
}

/// The decimal text of `n`, without sign or leading zeros.
pub open spec fn decimal(n: nat) -> Seq<char>
    decreases n,
{
    if n < 10 {
        seq![digit_char(n)]
    } else {
        decimal(n / 10) + seq![digit_char(n % 10)]
    }
}

/// The one-character text of the decimal digit `d`.
fn digit_str(d: usize) -> (r: &'static str)
    requires
        d < 10,
    ensures
        r@ == seq![digit_char(d as nat)],
{
    proof {
        reveal_strlit("0");
        reveal_strlit("1");
        reveal_strlit("2");
        reveal_strlit("3");
        reveal_strlit("4");
        reveal_strlit("5");
        reveal_strlit("6");
        reveal_strlit("7");
        reveal_strlit("8");
        reveal_strlit("9");
    }
    let r = if d == 0 {
        "0"
    } else if d == 1 {
        "1"
    } else if d == 2 {
        "2"
    } else if d == 3 {
        "3"
    } else if d == 4 {
        "4"
    } else if d == 5 {
        "5"
    } else if d == 6 {
        "6"
    } else if d == 7 {
        "7"
    } else if d == 8 {
        "8"
    } else {
        "9"
    };
    assert(r@ =~= seq![digit_char(d as nat)]);
    r
}

/// The decimal text of `n`.
pub fn decimal_text(n: usize) -> (r: String)
    ensures
        r@ == decimal(n as nat),
    decreases n,
{
    if n < 10 {
        digit_str(n).to_owned()
    } else {
        let mut r = decimal_text(n / 10);
        r.append(digit_str(n % 10));
        r
    }
}

impl ReplayError {
    /// The text the error is shown with: `IO error: ` and the I/O error's
    /// own text, or `decode error at line N: ` and the parser's message.
    pub fn display_text(&self) -> (r: String)
        ensures
            match self {
                ReplayError::Io(_) => exists|t: Seq<char>| r@ == "IO error: "@ + t,
                ReplayError::Decode { line, message } => r@ == "decode error at line "@ + decimal(
                    *line as nat,
                ) + ": "@ + message@,
            },
    {
        match self {
            ReplayError::Io(e) => {
                let mut r = "IO error: ".to_owned();
                let t = e.to_string();
                r.append(t.as_str());
                r
            },
            ReplayError::Decode { line, message } => {
                let mut r = "decode error at line ".to_owned();
                let n = decimal_text(*line);
                r.append(n.as_str());
                r.append(": ");
                r.append(message.as_str());
                r
            },
        }
    }
}

impl From<std::io::Error> for ReplayError {
    fn from(e: std::io::Error) -> (r: Self) {
        ReplayError::Io(e)
    }
}

impl vstd::std_specs::convert::FromSpecImpl<std::io::Error> for ReplayError {
    open spec fn obeys_from_spec() -> bool {
        true
    }

    open spec fn from_spec(v: std::io::Error) -> Self {
        ReplayError::Io(v)
    }
}

} // verus!
