//! The command grammar of the line-oriented front end.
//!
//! Each input line is one command: `AddClient{NAME;GROUP;ADDR}`,
//! `SendMsg{FROM;TO;CONTENT}`, or `Shutdown`. A command has exactly one
//! `{` and exactly three `;`-separated fields inside the braces; anything
//! else is answered with an error line and the loop continues.

use vstd::prelude::*;
use crate::codec::{chars_string, copy_range, str_chars};
use crate::relayer::Table;

verus! {

// ---------------------------------------------------------------------------
// The grammar, spec side
// ---------------------------------------------------------------------------

/// The whitespace the command reader strips from line ends.
pub open spec fn is_space(c: char) -> bool {
    c == ' ' || c == '\t' || c == '\n' || c == '\r'
}

pub open spec fn trim_front(s: Seq<char>) -> Seq<char>
    decreases s.len(),
{
    if s.len() > 0 && is_space(s[0]) {
        trim_front(s.drop_first())
    } else {
        s
    }
}

pub open spec fn trim_back(s: Seq<char>) -> Seq<char>
    decreases s.len(),
{
    if s.len() > 0 && is_space(s.last()) {
        trim_back(s.drop_last())
    } else {
        s
    }
}

/// A line with its leading and trailing whitespace removed.
pub open spec fn trim_spec(s: Seq<char>) -> Seq<char> {
    trim_back(trim_front(s))
}

/// The position of the leftmost occurrence of `c`, if any.
pub open spec fn find_char(s: Seq<char>, c: char) -> Option<int>
    decreases s.len(),
{
    if s.len() == 0 {
        None
    } else if s[0] == c {
        Some(0)
    } else {
        match find_char(s.drop_first(), c) {
            Some(i) => Some(i + 1),
            None => None,
        }
    }
}

/// The pieces of `s` split on `c`, in order; `n` separators give `n + 1`
/// pieces.
pub open spec fn split_on(s: Seq<char>, c: char) -> Seq<Seq<char>>
    decreases s.len(),
    via split_on_decreases
{
    match find_char(s, c) {
        None => seq![s],
        Some(i) => seq![s.subrange(0, i)] + split_on(s.subrange(i + 1, s.len() as int), c),
    }
}

proof fn lemma_find_char_bounds(s: Seq<char>, c: char)
    ensures
        match find_char(s, c) {
            Some(i) => 0 <= i < s.len() && s[i] == c,
            None => true,
        },
    decreases s.len(),
{
    if s.len() > 0 && s[0] != c {
        lemma_find_char_bounds(s.drop_first(), c);
    }
}

#[via_fn]
proof fn split_on_decreases(s: Seq<char>, c: char) {
    lemma_find_char_bounds(s, c);
}

/// `s` with every `}` removed.
pub open spec fn remove_braces(s: Seq<char>) -> Seq<char>
    decreases s.len(),
{
    if s.len() == 0 {
        Seq::empty()
    } else if s[0] == '}' {
        remove_braces(s.drop_first())
    } else {
        seq![s[0]] + remove_braces(s.drop_first())
    }
}

/// A parsed command, as the specification sees it.
pub enum CommandView {
    AddClient { name: Seq<char>, group: Seq<char>, addr: Seq<char> },
    SendMsg { from: Seq<char>, to: Seq<char>, content: Seq<char> },
    Shutdown,
}

/// What one input line means: a command, or the error line it is answered
/// with.
pub open spec fn parse_command_spec(input: Seq<char>) -> Result<CommandView, Seq<char>> {
    let t = trim_spec(input);
    if t == "Shutdown"@ {
        Ok(CommandView::Shutdown)
    } else {
        let parts = split_on(t, '{');
        if parts.len() != 2 {
            Err("Error! input style should be 'Command{{xxx}}'"@)
        } else if parts[0] == "AddClient"@ {
            let infos = split_on(trim_spec(remove_braces(parts[1])), ';');
            if infos.len() != 3 {
                Err("Error! AddClient info should be 'name;group;address'"@)
            } else {
                Ok(CommandView::AddClient { name: infos[0], group: infos[1], addr: infos[2] })
            }
        } else if parts[0] == "SendMsg"@ {
            let infos = split_on(trim_spec(remove_braces(parts[1])), ';');
            if infos.len() != 3 {
                Err("Error! SendMsg info should be 'from;to;content'"@)
            } else {
                Ok(CommandView::SendMsg { from: infos[0], to: infos[1], content: infos[2] })
            }
        } else {
            Err("command not support"@)
        }
    }
}

// ---------------------------------------------------------------------------
// The parser, exec side
// ---------------------------------------------------------------------------

/// A parsed command.
#[derive(Debug, PartialEq)]
pub enum Command {
    AddClient { name: String, group: String, addr: String },
    SendMsg { from: String, to: String, content: String },
    Shutdown,
}

impl View for Command {
    type V = CommandView;

    open spec fn view(&self) -> CommandView {
        match self {
            Command::AddClient { name, group, addr } => CommandView::AddClient {
                name: name@,
                group: group@,
                addr: addr@,
            },
            Command::SendMsg { from, to, content } => CommandView::SendMsg {
                from: from@,
                to: to@,
                content: content@,
            },
            Command::Shutdown => CommandView::Shutdown,
        }
    }
}

proof fn lemma_chars_deep_view(v: &Vec<char>)
    ensures
        v.deep_view() == v@,
{
    assert(v.deep_view() =~= v@);
}

fn is_space_char(c: char) -> (b: bool)
    ensures
        b == is_space(c),
{
    c == ' ' || c == '\t' || c == '\n' || c == '\r'
}

proof fn lemma_trim_front_at(s: Seq<char>, i: int)
    requires
        0 <= i <= s.len(),
        forall|j: int| 0 <= j < i ==> is_space(#[trigger] s[j]),
        i < s.len() ==> !is_space(s[i]),
    ensures
        trim_front(s) == s.subrange(i, s.len() as int),
    decreases i,
{
    if i == 0 {
        if s.len() > 0 && is_space(s[0]) {
            assert(false);
        }
        assert(s.subrange(0, s.len() as int) =~= s);
    } else {
        let s1 = s.drop_first();
        assert(is_space(s[0]));
        assert forall|j: int| 0 <= j < i - 1 implies is_space(#[trigger] s1[j]) by {
            assert(s1[j] == s[j + 1]);
        }
        if i - 1 < s1.len() {
            assert(s1[i - 1] == s[i]);
        }
        lemma_trim_front_at(s1, i - 1);
        assert(s1.subrange(i - 1, s1.len() as int) =~= s.subrange(i, s.len() as int));
    }
}

proof fn lemma_trim_back_at(s: Seq<char>, i: int)
    requires
        0 <= i <= s.len(),
        forall|j: int| i <= j < s.len() ==> is_space(#[trigger] s[j]),
        i > 0 ==> !is_space(s[i - 1]),
    ensures
        trim_back(s) == s.subrange(0, i),
    decreases s.len() - i,
{
    if i == s.len() {
        if s.len() > 0 && is_space(s.last()) {
            assert(false);
        }
        assert(s.subrange(0, s.len() as int) =~= s);
    } else {
        let s1 = s.drop_last();
        assert(is_space(s.last()));
        assert forall|j: int| i <= j < s1.len() implies is_space(#[trigger] s1[j]) by {
            assert(s1[j] == s[j]);
        }
        if i > 0 {
            assert(s1[i - 1] == s[i - 1]);
        }
        lemma_trim_back_at(s1, i);
        assert(s1.subrange(0, i) =~= s.subrange(0, i));
    }
}

/// The characters of `s` with end whitespace stripped.
fn trim_chars(s: &Vec<char>) -> (r: Vec<char>)
    ensures
        r@ == trim_spec(s@),
{
    let mut a: usize = 0;
    while a < s.len() && is_space_char(s[a])
        invariant
            a <= s.len(),
            forall|j: int| 0 <= j < a ==> is_space(#[trigger] s@[j]),
        decreases s.len() - a,
    {
        a = a + 1;
    }
    let mut b: usize = s.len();
    while b > a && is_space_char(s[b - 1])
        invariant
            a <= b <= s.len(),
            forall|j: int| 0 <= j < a ==> is_space(#[trigger] s@[j]),
            forall|j: int| b <= j < s.len() ==> is_space(#[trigger] s@[j]),
        decreases b,
    {
        b = b - 1;
    }
    let r = copy_range(s, a, b);
    proof {
        lemma_trim_front_at(s@, a as int);
        let t = s@.subrange(a as int, s@.len() as int);
        assert forall|j: int| (b - a) <= j < t.len() implies is_space(#[trigger] t[j]) by {
            assert(t[j] == s@[j + a]);
        }
        if b > a {
            assert(t[b - a - 1] == s@[b - 1]);
        }
        lemma_trim_back_at(t, b - a);
        assert(t.subrange(0, b - a) =~= s@.subrange(a as int, b as int));
    }
    r
}

/// Whether the characters equal the literal.
fn chars_eq_lit(v: &Vec<char>, lit: &str) -> (b: bool)
    ensures
        b == (v@ == lit@),
{
    let n = lit.unicode_len();
    if v.len() != n {
        proof {
            assert(v@ != lit@);
        }
        return false;
    }
    let mut i: usize = 0;
    while i < n
        invariant
            i <= n,
            n == lit@.len(),
            v@.len() == n,
            forall|j: int| 0 <= j < i ==> v@[j] == lit@[j],
        decreases n - i,
    {
        if v[i] != lit.get_char(i) {
            proof {
                assert(v@[i as int] != lit@[i as int]);
            }
            return false;
        }
        i = i + 1;
    }
    proof {
        assert(v@ =~= lit@);
    }
    true
}

/// Scan for the leftmost occurrence of `c` at or after `pos`.
fn find_char_from(input: &Vec<char>, pos: usize, c: char) -> (r: Option<usize>)
    requires
        pos <= input.len(),
    ensures
        ({
            let t = input@.subrange(pos as int, input@.len() as int);
            match r {
                Some(j) => pos <= j && j < input@.len() && find_char(t, c) == Some(j - pos),
                None => find_char(t, c) is None,
            }
        }),
    decreases input@.len() - pos,
{
    let ghost t = input@.subrange(pos as int, input@.len() as int);
    if pos >= input.len() {
        return None;
    }
    proof {
        assert(t[0] == input@[pos as int]);
        assert(t.drop_first() =~= input@.subrange(pos + 1, input@.len() as int));
    }
    if input[pos] == c {
        return Some(pos);
    }
    match find_char_from(input, pos + 1, c) {
        Some(j) => Some(j),
        None => None,
    }
}

/// Split on `c`, every piece in order.
fn split_chars(input: &Vec<char>, pos: usize, c: char) -> (r: Vec<Vec<char>>)
    requires
        pos <= input.len(),
    ensures
        r.deep_view() == split_on(input@.subrange(pos as int, input@.len() as int), c),
    decreases input@.len() - pos,
{
    let ghost t = input@.subrange(pos as int, input@.len() as int);
    match find_char_from(input, pos, c) {
        None => {
            let piece = copy_range(input, pos, input.len());
            let mut r: Vec<Vec<char>> = Vec::new();
            r.push(piece);
            proof {
                lemma_chars_deep_view(&piece);
                assert(piece@ =~= t);
                assert(r.deep_view() =~= seq![t]);
            }
            r
        },
        Some(j) => {
            let piece = copy_range(input, pos, j);
            let ghost i = j - pos;
            proof {
                assert(piece@ =~= t.subrange(0, i));
                assert(input@.subrange(j as int + 1, input@.len() as int)
                    =~= t.subrange(i + 1, t.len() as int));
            }
            let mut rest = split_chars(input, j + 1, c);
            let ghost rest_dv = rest.deep_view();
            let ghost pre_rest = rest@;
            let mut r: Vec<Vec<char>> = Vec::new();
            r.push(piece);
            r.append(&mut rest);
            proof {
                lemma_chars_deep_view(&piece);
                assert(r@ == seq![piece] + pre_rest);
                assert forall|k: int| 0 <= k < r.deep_view().len()
                    implies r.deep_view()[k] == (seq![t.subrange(0, i)] + rest_dv)[k] by {
                    if k == 0 {
                        assert(r.deep_view()[0] == piece.deep_view());
                    } else {
                        assert(r@[k] == pre_rest[k - 1]);
                        assert(r.deep_view()[k] == pre_rest[k - 1].deep_view());
                        assert(rest_dv[k - 1] == pre_rest[k - 1].deep_view());
                    }
                }
                assert(r.deep_view() =~= seq![t.subrange(0, i)] + rest_dv);
            }
            r
        },
    }
}

proof fn lemma_remove_braces_snoc(s: Seq<char>, c: char)
    ensures
        remove_braces(s.push(c))
            == remove_braces(s) + (if c == '}' { Seq::<char>::empty() } else { seq![c] }),
    decreases s.len(),
{
    let tail: Seq<char> = if c == '}' { Seq::empty() } else { seq![c] };
    if s.len() == 0 {
        assert(s.push(c) =~= seq![c]);
        assert(seq![c].drop_first() =~= Seq::<char>::empty());
        assert(remove_braces(s) == Seq::<char>::empty());
        if c == '}' {
            assert(remove_braces(seq![c]) == remove_braces(Seq::<char>::empty()));
            assert(remove_braces(s) + tail =~= Seq::<char>::empty());
        } else {
            assert(remove_braces(seq![c]) == seq![c] + remove_braces(Seq::<char>::empty()));
            assert(seq![c] + Seq::<char>::empty() =~= seq![c]);
            assert(remove_braces(s) + tail =~= seq![c]);
        }
        assert(remove_braces(s.push(c)) == remove_braces(s) + tail);
    } else {
        lemma_remove_braces_snoc(s.drop_first(), c);
        assert(s.push(c).drop_first() =~= s.drop_first().push(c));
        assert(s.push(c)[0] == s[0]);
        if s[0] == '}' {
            assert(remove_braces(s.push(c)) == remove_braces(s.drop_first().push(c)));
            assert(remove_braces(s) == remove_braces(s.drop_first()));
            assert(remove_braces(s.push(c)) == remove_braces(s) + tail);
        } else {
            assert(remove_braces(s.push(c))
                == seq![s[0]] + remove_braces(s.drop_first().push(c)));
            assert(remove_braces(s) == seq![s[0]] + remove_braces(s.drop_first()));
            assert(seq![s[0]] + (remove_braces(s.drop_first()) + tail)
                =~= (seq![s[0]] + remove_braces(s.drop_first())) + tail);
            assert(remove_braces(s.push(c)) == remove_braces(s) + tail);
        }
    }
}

/// The characters with every `}` removed.
fn remove_braces_chars(s: &Vec<char>) -> (r: Vec<char>)
    ensures
        r@ == remove_braces(s@),
{
    let mut r: Vec<char> = Vec::new();
    let mut i: usize = 0;
    while i < s.len()
        invariant
            i <= s.len(),
            r@ == remove_braces(s@.subrange(0, i as int)),
        decreases s.len() - i,
    {
        let c = s[i];
        if c != '}' {
            r.push(c);
        }
        i = i + 1;
        proof {
            lemma_remove_braces_snoc(s@.subrange(0, i - 1), c);
            assert(s@.subrange(0, i - 1).push(c) =~= s@.subrange(0, i as int));
        }
    }
    proof {
        assert(s@.subrange(0, s@.len() as int) =~= s@);
    }
    r
}

/// Parse one input line into a command, or the error line that answers it.
#[verifier::rlimit(100)]
pub fn parse_command(input: &str) -> (r: Result<Command, &'static str>)
    ensures
        match (r, parse_command_spec(input@)) {
            (Ok(c), Ok(v)) => c@ == v,
            (Err(e), Err(ev)) => e@ == ev,
            _ => false,
        },
{
    let chars = str_chars(input);
    let trimmed = trim_chars(&chars);
    if chars_eq_lit(&trimmed, "Shutdown") {
        return Ok(Command::Shutdown);
    }
    let parts = split_chars(&trimmed, 0, '{');
    proof {
        assert(trimmed@.subrange(0, trimmed@.len() as int) =~= trimmed@);
        assert(parts.deep_view() == split_on(trim_spec(chars@), '{'));
    }
    if parts.len() != 2 {
        return Err("Error! input style should be 'Command{{xxx}}'");
    }
    proof {
        assert(parts@[0]@ == split_on(trim_spec(chars@), '{')[0]);
        assert(parts@[1]@ == split_on(trim_spec(chars@), '{')[1]);
    }
    let is_add = chars_eq_lit(&parts[0], "AddClient");
    let is_send = if is_add { false } else { chars_eq_lit(&parts[0], "SendMsg") };
    if is_add || is_send {
        let info = remove_braces_chars(&parts[1]);
        let trimmed_info = trim_chars(&info);
        let infos = split_chars(&trimmed_info, 0, ';');
        proof {
            assert(trimmed_info@.subrange(0, trimmed_info@.len() as int) =~= trimmed_info@);
            assert(infos.deep_view()
                == split_on(trim_spec(remove_braces(parts@[1]@)), ';'));
        }
        if infos.len() != 3 {
            if is_add {
                return Err("Error! AddClient info should be 'name;group;address'");
            }
            return Err("Error! SendMsg info should be 'from;to;content'");
        }
        proof {
            let sp = split_on(trim_spec(remove_braces(parts@[1]@)), ';');
            assert(infos@[0]@ == sp[0]);
            assert(infos@[1]@ == sp[1]);
            assert(infos@[2]@ == sp[2]);
        }
        let first = chars_string(&infos[0]);
        let second = chars_string(&infos[1]);
        let third = chars_string(&infos[2]);
        if is_add {
            return Ok(Command::AddClient { name: first, group: second, addr: third });
        }
        return Ok(Command::SendMsg { from: first, to: second, content: third });
    }
    Err("command not support")
}

// ---------------------------------------------------------------------------
// Client bookkeeping of the front end
// ---------------------------------------------------------------------------

/// A fresh client name must not already be filed in the directory.
pub fn check_fresh_client(map: &Table<String>, name: &str) -> (r: Result<(), String>)
    ensures
        map.ids().contains(name@) <==> (r matches Err(e) && e@ == "client already exitst"@),
        r is Ok <==> !map.ids().contains(name@),
{
    let key = String::from_str(name);
    match map.get(&key) {
        Some(_) => Err(String::from_str("client already exitst")),
        None => Ok(()),
    }
}

} // verus!
