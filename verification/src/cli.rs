//! Command-line input: the client's arguments, the commands typed at the
//! prompts, and the parsing of sides and quantities.
use vstd::prelude::*;
use vstd::string::StrSliceExecFns;
use crate::types::Side;

verus! {

/// The trading client's command-line arguments.
pub struct Args {
    pub orderbook: bool,
    pub balance: Option<String>,
    pub command: Option<Commands>,
}

/// The trading client's subcommands.
pub enum Commands {
    Deposit { signer: String, amount: u64 },
    Withdraw { signer: String, amount: u64 },
    Order,
}

/// Whether `c` is a decimal digit.
pub open spec fn is_digit(c: char) -> bool {
    '0' <= c <= '9'
}

/// The value of a sequence of decimal digits, most significant first.
pub open spec fn decimal_value(s: Seq<char>) -> int
    decreases s.len(),
{
    if s.len() == 0 {
        0
    } else {
        decimal_value(s.drop_last()) * 10 + (s.last() as int - '0' as int)
    }
}

/// The digits of an unsigned number as text: everything after an optional
/// leading `+`.
pub open spec fn unsigned_digits(s: Seq<char>) -> Seq<char> {
    if s.len() > 0 && s[0] == '+' {
        s.drop_first()
    } else {
        s
    }
}

/// The `u64` that `s` spells: an optional `+` followed by at least one
/// decimal digit, of a value that fits in a `u64`; `None` for anything else.
pub open spec fn parsed_u64(s: Seq<char>) -> Option<u64> {
    let d = unsigned_digits(s);
    if d.len() > 0 && (forall|i: int| 0 <= i < d.len() ==> is_digit(#[trigger] d[i])) && decimal_value(d)
        <= u64::MAX {
        Some(decimal_value(d) as u64)
    } else {
        None
    }
}

proof fn lemma_decimal_value_grows(s: Seq<char>, i: int)
    requires
        0 <= i <= s.len(),
        forall|k: int| 0 <= k < s.len() ==> is_digit(#[trigger] s[k]),
    ensures
        0 <= decimal_value(s.take(i)) <= decimal_value(s),
    decreases s.len() - i,
{
    if i < s.len() {
        lemma_decimal_value_grows(s, i + 1);
        assert(s.take(i + 1).drop_last() =~= s.take(i));
        assert(is_digit(s[i]));
    } else {
        assert(s.take(i) =~= s);
        lemma_decimal_value_nonneg(s);
    }
}

proof fn lemma_decimal_value_nonneg(s: Seq<char>)
    requires
        forall|k: int| 0 <= k < s.len() ==> is_digit(#[trigger] s[k]),
    ensures
        decimal_value(s) >= 0,
    decreases s.len(),
{
    if s.len() > 0 {
        let t = s.drop_last();
        assert forall|k: int| 0 <= k < t.len() implies is_digit(#[trigger] t[k]) by {
            assert(t[k] == s[k]);
        }
        lemma_decimal_value_nonneg(t);
        assert(is_digit(s[s.len() - 1]));
    }
}

/// Parses an unsigned decimal number as `u64`'s `from_str` does: an
/// optional `+` and at least one digit, with no overflow.
pub fn parse_u64(s: &str) -> (r: Option<u64>)
    ensures
        r == parsed_u64(s@),
{
    let len = s.unicode_len();
    let ghost d = unsigned_digits(s@);
    let mut start: usize = 0;
    if len > 0 && s.get_char(0) == '+' {
        start = 1;
    }
    assert(d =~= s@.skip(start as int));
    if start == len {
        return None;
    }
    let mut value: u64 = 0;
    let mut i: usize = start;
    while i < len
        invariant
            start <= i <= len,
            len == s@.len(),
            d == s@.skip(start as int),
            d == unsigned_digits(s@),
            start < len,
            forall|k: int| 0 <= k < i - start ==> is_digit(#[trigger] d[k]),
            value == decimal_value(d.take(i - start)),
        decreases len - i,
    {
        let c = s.get_char(i);
        assert(c == d[i - start]);
        if c < '0' || c > '9' {
            assert(!is_digit(d[i - start]));
            return None;
        }
        let digit = (c as u32 - '0' as u32) as u64;
        assert(d.take(i - start + 1).drop_last() =~= d.take(i - start));
        assert(d.take(i - start + 1).last() == c);
        assert(decimal_value(d.take(i - start + 1)) == value * 10 + digit);
        let next = match value.checked_mul(10) {
            Some(v) => v.checked_add(digit),
            None => None,
        };
        match next {
            Some(v) => { value = v; },
            None => {
                proof {
                    if forall|k: int| 0 <= k < d.len() ==> is_digit(#[trigger] d[k]) {
                        lemma_decimal_value_grows(d, i - start + 1);
                    }
                }
                return None;
            },
        }
        i += 1;
    }
    assert(d.take(i - start) =~= d);
    Some(value)
}

/// Compares `s` with `word`, character by character.
pub fn text_is(s: &str, word: &str) -> (r: bool)
    ensures
        r == (s@ == word@),
{
    let n = s.unicode_len();
    if n != word.unicode_len() {
        return false;
    }
    let mut i: usize = 0;
    while i < n
        invariant
            i <= n,
            n == s@.len(),
            n == word@.len(),
            forall|k: int| 0 <= k < i ==> s@[k] == word@[k],
        decreases n - i,
    {
        if s.get_char(i) != word.get_char(i) {
            return false;
        }
        i += 1;
    }
    assert(s@ =~= word@);
    true
}

impl Side {
    /// Reads a side as typed at a prompt: `buy` or `sell`.
    pub fn parse(s: &str) -> (r: Option<Side>)
        ensures
            r == (if s@ == "buy"@ {
                Some(Side::Buy)
            } else if s@ == "sell"@ {
                Some(Side::Sell)
            } else {
                None
            }),
    {
        if text_is(s, "buy") {
            Some(Side::Buy)
        } else if text_is(s, "sell") {
            Some(Side::Sell)
        } else {
            None
        }
    }
}

/// A command of the standalone ledger's prompt.
#[derive(Debug, PartialEq, Eq, Structural)]
pub enum LedgerCommand {
    Deposit,
    Withdraw,
    Send,
    Print,
    Quit,
    Unknown,
}

impl LedgerCommand {
    /// Reads a command typed at the ledger's prompt.
    pub fn parse(s: &str) -> (r: LedgerCommand)
        ensures
            r == (if s@ == "deposit"@ {
                LedgerCommand::Deposit
            } else if s@ == "withdraw"@ {
                LedgerCommand::Withdraw
            } else if s@ == "send"@ {
                LedgerCommand::Send
            } else if s@ == "print"@ {
                LedgerCommand::Print
            } else if s@ == "quit"@ {
                LedgerCommand::Quit
            } else {
                LedgerCommand::Unknown
            }),
    {
        if text_is(s, "deposit") {
            LedgerCommand::Deposit
        } else if text_is(s, "withdraw") {
            LedgerCommand::Withdraw
        } else if text_is(s, "send") {
            LedgerCommand::Send
        } else if text_is(s, "print") {
            LedgerCommand::Print
        } else if text_is(s, "quit") {
            LedgerCommand::Quit
        } else {
            LedgerCommand::Unknown
        }
    }
}

/// A command of the trading client's prompt.
#[derive(Debug, PartialEq, Eq, Structural)]
pub enum ClientCommand {
    Deposit,
    Withdraw,
    Send,
    Order,
    OrderBook,
    TxLog,
    Print,
    Quit,
    Unknown,
}

impl ClientCommand {
    /// Reads a command typed at the client's prompt, long or short form.
    pub fn parse(s: &str) -> (r: ClientCommand)
        ensures
            r == (if s@ == "deposit"@ || s@ == "d"@ {
                ClientCommand::Deposit
            } else if s@ == "withdraw"@ || s@ == "w"@ {
                ClientCommand::Withdraw
            } else if s@ == "send"@ || s@ == "s"@ {
                ClientCommand::Send
            } else if s@ == "order"@ || s@ == "o"@ {
                ClientCommand::Order
            } else if s@ == "orderbook"@ || s@ == "ob"@ {
                ClientCommand::OrderBook
            } else if s@ == "txlog"@ {
                ClientCommand::TxLog
            } else if s@ == "print"@ {
                ClientCommand::Print
            } else if s@ == "quit"@ || s@ == "q"@ {
                ClientCommand::Quit
            } else {
                ClientCommand::Unknown
            }),
    {
        if text_is(s, "deposit") || text_is(s, "d") {
            ClientCommand::Deposit
        } else if text_is(s, "withdraw") || text_is(s, "w") {
            ClientCommand::Withdraw
        } else if text_is(s, "send") || text_is(s, "s") {
            ClientCommand::Send
        } else if text_is(s, "order") || text_is(s, "o") {
            ClientCommand::Order
        } else if text_is(s, "orderbook") || text_is(s, "ob") {
            ClientCommand::OrderBook
        } else if text_is(s, "txlog") {
            ClientCommand::TxLog
        } else if text_is(s, "print") {
            ClientCommand::Print
        } else if text_is(s, "quit") || text_is(s, "q") {
            ClientCommand::Quit
        } else {
            ClientCommand::Unknown
        }
    }
}

} // verus!
