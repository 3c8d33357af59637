//! The command grammar of the surrounding shell: a closed enumeration of
//! command kinds parsed once from the input tokens.  A token sequence no
//! command claims parses to `NoMatch`, an ordinary outcome the dispatcher
//! answers with an unrecognized-command message — not an error.

use vstd::prelude::*;

verus! {

/// The payload of an unclaimed input line: the line itself, kept for the
/// unrecognized-command message.
#[derive(Debug)]
pub struct CommandNotFound {
    pub command: String,
}

impl CommandNotFound {
    pub fn new(message: &str) -> (r: Self)
        ensures
            r.command@ == message@,
    {
        CommandNotFound { command: message.to_owned() }
    }

    /// The user-visible text for an unclaimed line.
    pub fn message(&self) -> (r: String)
        ensures
            r@ == "Invalid format: "@ + self.command@,
    {
        let prefix = String::from_str("Invalid format: ");
        prefix.concat(self.command.as_str())
    }
}

/// One parsed command line.
#[derive(Debug)]
pub enum CommandKind {
    /// `search <terms...>`: query the remote catalog and cache the results.
    Search { terms: Vec<String> },
    /// `download <ids...>`: resolve and download each id for a prompted
    /// target version.
    Download { args: Vec<String> },
    /// `print <ids...>`: show the records for the given ids.
    Print { args: Vec<String> },
    /// `update` or `clear`: wipe the registry and checkpoint it.
    Update,
    /// `save`: checkpoint the registry.
    Save,
    /// `quit` or `exit`: checkpoint and leave.
    Quit,
    /// No command claims the tokens.
    NoMatch(CommandNotFound),
}

/// `parts` joined with `sep` between consecutive parts.
pub open spec fn join_spec(parts: Seq<Seq<char>>, sep: Seq<char>) -> Seq<char>
    decreases parts.len(),
{
    if parts.len() == 0 {
        Seq::empty()
    } else if parts.len() == 1 {
        parts[0]
    } else {
        join_spec(parts.drop_last(), sep) + sep + parts.last()
    }
}

/// Join string parts with a separator.
pub fn join_with(parts: &Vec<String>, sep: &str) -> (r: String)
    ensures
        r@ == join_spec(parts.deep_view(), sep@),
{
    let ghost dv = parts.deep_view();
    let mut r = String::new();
    let mut i: usize = 0;
    proof {
        assert(dv.take(0) =~= Seq::<Seq<char>>::empty());
    }
    while i < parts.len()
        invariant
            0 <= i <= dv.len(),
            dv == parts.deep_view(),
            dv.len() == parts@.len(),
            r@ == join_spec(dv.take(i as int), sep@),
        decreases dv.len() - i,
    {
        proof {
            assert(dv.take(i + 1).drop_last() =~= dv.take(i as int));
            assert(dv.take(i + 1).last() == dv[i as int]);
        }
        if i > 0 {
            r.append(sep);
        }
        r.append(parts[i].as_str());
        i = i + 1;
    }
    proof {
        assert(dv.take(dv.len() as int) =~= dv);
    }
    r
}

/// The query string of the `search` command: the search terms joined with
/// the encoded-space separator the catalog's search endpoint takes.
pub fn search_query(terms: &Vec<String>) -> (q: String)
    ensures
        q@ == join_spec(terms.deep_view(), "%20"@),
{
    join_with(terms, "%20")
}

/// The directory a resolution downloads into: the target version and the
/// root mod's name under the mods directory.
pub fn mods_dir(version: &String, name: &String) -> (r: String)
    ensures
        r@ == "./mods/"@ + version@ + "/"@ + name@,
{
    let r = String::from_str("./mods/");
    let r = r.concat(version.as_str());
    let r = r.concat("/");
    r.concat(name.as_str())
}

/// Whether some command claims a token sequence.
pub open spec fn claims(tokens: Seq<Seq<char>>) -> bool {
    ||| (tokens.len() > 1 && (tokens[0] == "search"@ || tokens[0] == "download"@ || tokens[0]
        == "print"@))
    ||| (tokens.len() >= 1 && (tokens[0] == "update"@ || tokens[0] == "clear"@ || tokens[0]
        == "save"@ || tokens[0] == "quit"@ || tokens[0] == "exit"@))
}

/// Whether `s` and the literal `lit` hold the same characters.
fn eq_str(s: &String, lit: &str) -> (b: bool)
    ensures
        b == (s@ == lit@),
{
    let other = String::from_str(lit);
    *s == other
}

/// The tokens after the command word.
fn tail_of(tokens: &Vec<String>) -> (r: Vec<String>)
    requires
        tokens@.len() >= 1,
    ensures
        r.deep_view() == tokens.deep_view().skip(1),
{
    let ghost dv = tokens.deep_view();
    let mut r: Vec<String> = Vec::new();
    let mut i: usize = 1;
    proof {
        assert(r.deep_view() =~~= dv.subrange(1, 1));
    }
    while i < tokens.len()
        invariant
            1 <= i <= dv.len(),
            dv == tokens.deep_view(),
            dv.len() == tokens@.len(),
            r.deep_view() == dv.subrange(1, i as int),
        decreases dv.len() - i,
    {
        let ghost prev = r.deep_view();
        let element = tokens[i].clone();
        proof {
            assert(element@ == dv[i as int]);
        }
        r.push(element);
        proof {
            assert forall|k: int|
                0 <= k < r.deep_view().len() implies r.deep_view()[k] == dv.subrange(1, i + 1)[k] by {
                assert(r.deep_view()[k] == r@[k].deep_view());
                if k < prev.len() {
                    assert(r@[k].deep_view() == prev[k]);
                }
            }
            assert(r.deep_view().len() == i);
            assert(dv.subrange(1, i + 1).len() == i);
            assert forall|k: int|
                0 <= k < i implies r.deep_view()[k] == dv.subrange(1, i + 1)[k] by {
            }
            assert(r.deep_view() =~~= dv.subrange(1, i + 1));
        }
        i = i + 1;
    }
    proof {
        assert(dv.subrange(1, dv.len() as int) =~~= dv.skip(1));
    }
    r
}

/// Parse one input line, already split into whitespace-separated tokens,
/// into the command it names.  Exactly the claimed forms parse to a command;
/// everything else is `NoMatch`, carrying the joined line.
pub fn parse_command(tokens: &Vec<String>) -> (c: CommandKind)
    ensures
        ({
            let toks = tokens.deep_view();
            match c {
                CommandKind::Search { terms } => toks.len() > 1 && toks[0] == "search"@
                    && terms.deep_view() == toks.skip(1),
                CommandKind::Download { args } => toks.len() > 1 && toks[0] == "download"@
                    && args.deep_view() == toks.skip(1),
                CommandKind::Print { args } => toks.len() > 1 && toks[0] == "print"@
                    && args.deep_view() == toks.skip(1),
                CommandKind::Update => toks.len() >= 1 && (toks[0] == "update"@ || toks[0]
                    == "clear"@),
                CommandKind::Save => toks.len() >= 1 && toks[0] == "save"@,
                CommandKind::Quit => toks.len() >= 1 && (toks[0] == "quit"@ || toks[0]
                    == "exit"@),
                CommandKind::NoMatch(e) => !claims(toks) && e.command@ == join_spec(
                    toks,
                    " "@,
                ),
            }
        }),
{
    let n = tokens.len();
    if n > 1 && eq_str(&tokens[0], "search") {
        CommandKind::Search { terms: tail_of(tokens) }
    } else if n > 1 && eq_str(&tokens[0], "download") {
        CommandKind::Download { args: tail_of(tokens) }
    } else if n > 1 && eq_str(&tokens[0], "print") {
        CommandKind::Print { args: tail_of(tokens) }
    } else if n >= 1 && (eq_str(&tokens[0], "update") || eq_str(&tokens[0], "clear")) {
        CommandKind::Update
    } else if n >= 1 && eq_str(&tokens[0], "save") {
        CommandKind::Save
    } else if n >= 1 && (eq_str(&tokens[0], "quit") || eq_str(&tokens[0], "exit")) {
        CommandKind::Quit
    } else {
        CommandKind::NoMatch(CommandNotFound { command: join_with(tokens, " ") })
    }
}

/// A decimal digit.
pub open spec fn is_dec_digit(c: char) -> bool {
    '0' <= c && c <= '9'
}

/// Every character a decimal digit.
pub open spec fn all_digits(s: Seq<char>) -> bool {
    forall|i: int| 0 <= i < s.len() ==> is_dec_digit(#[trigger] s[i])
}

/// The number a digit sequence spells.
pub open spec fn digits_value(s: Seq<char>) -> int
    decreases s.len(),
{
    if s.len() == 0 {
        0
    } else {
        digits_value(s.drop_last()) * 10 + (s.last() as u32 - '0' as u32)
    }
}

/// What the standard decimal reading of `s` as a `u32` yields: an optional
/// leading plus sign, then at least one digit, spelling a value in range.
pub open spec fn parses_to_u32(s: Seq<char>) -> Option<u32> {
    let digits = if s.len() > 0 && s[0] == '+' {
        s.skip(1)
    } else {
        s
    };
    if digits.len() > 0 && all_digits(digits) && digits_value(digits) <= u32::MAX {
        Some(digits_value(digits) as u32)
    } else {
        None
    }
}

proof fn lemma_digits_value_nonneg(s: Seq<char>)
    requires
        all_digits(s),
    ensures
        digits_value(s) >= 0,
    decreases s.len(),
{
    if s.len() > 0 {
        assert(all_digits(s.drop_last())) by {
            assert(forall|i: int| 0 <= i < s.len() - 1 ==> s.drop_last()[i] == s[i]);
        }
        lemma_digits_value_nonneg(s.drop_last());
        assert(is_dec_digit(s.last()));
    }
}

/// A digit sequence spells at least what any front part of it spells.
proof fn lemma_digits_value_monotone(s: Seq<char>, k: int)
    requires
        all_digits(s),
        0 <= k <= s.len(),
    ensures
        digits_value(s.take(k)) <= digits_value(s),
    decreases s.len() - k,
{
    if k < s.len() {
        lemma_digits_value_monotone(s, k + 1);
        assert(s.take(k + 1).drop_last() =~= s.take(k));
        assert(all_digits(s.take(k))) by {
            assert(forall|i: int| 0 <= i < k ==> s.take(k)[i] == s[i]);
        }
        lemma_digits_value_nonneg(s.take(k));
        assert(is_dec_digit(s.take(k + 1).last()));
        assert(digits_value(s.take(k)) <= digits_value(s.take(k + 1)));
    } else {
        assert(s.take(k) =~= s);
    }
}

/// Read a token as a `u32` the way the ids on a command line are read.
pub fn parse_u32(s: &str) -> (r: Option<u32>)
    ensures
        r == parses_to_u32(s@),
{
    let len = s.unicode_len();
    if len == 0 {
        return None;
    }
    let start: usize = if s.get_char(0) == '+' {
        1
    } else {
        0
    };
    let ghost digits = if s@[0] == '+' {
        s@.skip(1)
    } else {
        s@
    };
    proof {
        assert(digits.len() == len - start);
        assert(forall|i: int| 0 <= i < digits.len() ==> digits[i] == s@[i + start]);
    }
    if start == len {
        return None;
    }
    let mut value: u64 = 0;
    let mut j: usize = start;
    proof {
        assert(digits.take(0) =~= Seq::<char>::empty());
    }
    while j < len
        invariant
            start <= j <= len,
            len == s@.len(),
            start == 1 ==> s@.len() > 0 && s@[0] == '+',
            start == 0 ==> !(s@.len() > 0 && s@[0] == '+'),
            digits == if s@.len() > 0 && s@[0] == '+' {
                s@.skip(1)
            } else {
                s@
            },
            digits.len() == len - start,
            forall|i: int| 0 <= i < digits.len() ==> digits[i] == s@[i + start],
            all_digits(digits.take(j - start)),
            value == digits_value(digits.take(j - start)),
            value <= u32::MAX,
        decreases len - j,
    {
        let c = s.get_char(j);
        if c < '0' || c > '9' {
            proof {
                assert(digits[j - start] == c);
                assert(!is_dec_digit(digits[j - start]));
            }
            return None;
        }
        let d = (c as u32 - '0' as u32) as u64;
        proof {
            assert(digits.take(j - start + 1).drop_last() =~= digits.take(j - start));
            assert(digits.take(j - start + 1).last() == digits[j - start]);
            assert(digits[j - start] == c);
        }
        value = value * 10 + d;
        let ghost taken = j + 1 - start;
        proof {
            assert(all_digits(digits.take(taken as int))) by {
                assert(forall|i: int|
                    0 <= i < taken ==> digits.take(taken as int)[i] == digits.take(
                        j - start,
                    ).push(c)[i]);
            }
        }
        if value > u32::MAX as u64 {
            proof {
                if all_digits(digits) && digits_value(digits) <= u32::MAX {
                    lemma_digits_value_monotone(digits, taken as int);
                    assert(false);
                }
            }
            return None;
        }
        j = j + 1;
    }
    proof {
        assert(digits.take(len - start) =~= digits);
    }
    Some(value as u32)
}

} // verus!
