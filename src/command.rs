//! Items, commands, and the grammar that turns a typed line into a command.
use vstd::prelude::*;

verus! {

/// What an item is, as plain sequences of characters.
pub struct TodoModel {
    pub title: Seq<char>,
    pub description: Option<Seq<char>>,
}

/// A stored task: a title and an optional description.
pub struct Todo {
    pub title: String,
    pub description: Option<String>,
}

pub open spec fn opt_view(s: Option<String>) -> Option<Seq<char>> {
    match s {
        Some(d) => Some(d@),
        None => None,
    }
}

impl View for Todo {
    type V = TodoModel;

    open spec fn view(&self) -> TodoModel {
        TodoModel { title: self.title@, description: opt_view(self.description) }
    }
}

impl Todo {
    /// An item with this title and description.
    pub fn new(title: String, description: Option<String>) -> (r: Todo)
        ensures
            r@.title == title@,
            r@.description == opt_view(description),
    {
        Todo { title, description }
    }
}

/// Where the tokenizer stands after reading part of a line: the arguments
/// finished so far, the one being built, and whether a quote is open.
pub struct ScanState {
    pub args: Seq<Seq<char>>,
    pub current: Seq<char>,
    pub quoted: bool,
}

pub open spec fn scan_start() -> ScanState {
    ScanState { args: Seq::empty(), current: Seq::empty(), quoted: false }
}

/// Reading one character. A space outside quotes ends a non-empty argument;
/// a quote opens quoted mode, or closes it and ends the argument, even an
/// empty one; any other character is kept.
pub open spec fn scan_step(st: ScanState, c: char) -> ScanState {
    if c == ' ' && !st.quoted {
        if st.current.len() > 0 {
            ScanState { args: st.args.push(st.current), current: Seq::empty(), quoted: false }
        } else {
            st
        }
    } else if c == '"' && !st.quoted {
        ScanState { quoted: true, ..st }
    } else if c == '"' && st.quoted {
        ScanState { args: st.args.push(st.current), current: Seq::empty(), quoted: false }
    } else {
        ScanState { current: st.current.push(c), ..st }
    }
}

/// The state after reading all of `s`, starting from `st`.
pub open spec fn scan(st: ScanState, s: Seq<char>) -> ScanState
    decreases s.len(),
{
    if s.len() == 0 {
        st
    } else {
        scan_step(scan(st, s.drop_last()), s.last())
    }
}

/// The arguments of a line: those finished by the scan, then the last one if
/// it is not empty (an unterminated quote included).
pub open spec fn tokens(s: Seq<char>) -> Seq<Seq<char>> {
    let st = scan(scan_start(), s);
    if st.current.len() > 0 {
        st.args.push(st.current)
    } else {
        st.args
    }
}

/// Relies on String::push: appends one character at the end.
#[verifier::external_body]
fn push_char(s: &mut String, c: char)
    ensures
        final(s)@ == old(s)@.push(c),
{
    s.push(c)
}

/// Splits a line into its arguments, keeping quoted spans together.
pub fn get_args(input: String) -> (args: Vec<String>)
    ensures
        args.deep_view() == tokens(input@),
{
    let mut args: Vec<String> = Vec::new();
    let mut current = String::new();
    let mut is_quoted = false;
    let ghost s = input@;
    for c in it: input.as_str().chars()
        invariant
            s == input@,
            it.seq() == s,
            args.deep_view() == scan(scan_start(), s.take(it.index() as int)).args,
            current@ == scan(scan_start(), s.take(it.index() as int)).current,
            is_quoted == scan(scan_start(), s.take(it.index() as int)).quoted,
    {
        let ghost n = it.index();
        assert(s.take(n + 1).drop_last() == s.take(n as int));
        assert(s.take(n + 1).last() == c);
        if c == ' ' && !is_quoted {
            if !current.as_str().is_empty() {
                args.push(current);
                current = String::new();
            }
        } else if c == '"' && !is_quoted {
            is_quoted = true;
        } else if c == '"' && is_quoted {
            args.push(current);
            current = String::new();
            is_quoted = false;
        } else {
            push_char(&mut current, c);
        }
        proof {
            assert(args.deep_view() =~= scan(scan_start(), s.take(n + 1)).args);
        }
    }
    assert(s.take(s.len() as int) == s);
    if !current.as_str().is_empty() {
        args.push(current);
        assert(args.deep_view() =~= tokens(s));
    }
    args
}

/// A command, as plain values.
pub enum CommandModel {
    Add(TodoModel),
    Remove(usize),
    List,
    Load(Seq<char>),
    Save(Seq<char>),
    Help,
}

/// What a user asks for in one line.
pub enum Command {
    Add(Todo),
    Remove(usize),
    List,
    Load(String),
    Save(String),
    Help,
}

impl View for Command {
    type V = CommandModel;

    open spec fn view(&self) -> CommandModel {
        match self {
            Command::Add(t) => CommandModel::Add(t@),
            Command::Remove(i) => CommandModel::Remove(*i),
            Command::List => CommandModel::List,
            Command::Load(p) => CommandModel::Load(p@),
            Command::Save(p) => CommandModel::Save(p@),
            Command::Help => CommandModel::Help,
        }
    }
}

pub open spec fn is_digit(c: char) -> bool {
    '0' <= c && c <= '9'
}

pub open spec fn all_digits(s: Seq<char>) -> bool {
    forall|i: int| 0 <= i < s.len() ==> is_digit(#[trigger] s[i])
}

/// The number that a string of decimal digits writes.
pub open spec fn digits_value(s: Seq<char>) -> nat
    decreases s.len(),
{
    if s.len() == 0 {
        0
    } else {
        digits_value(s.drop_last()) * 10 + ((s.last() as u32 - '0' as u32) as nat)
    }
}

/// The digits of a position: the text after an optional leading `+`.
pub open spec fn unsigned_digits(s: Seq<char>) -> Seq<char> {
    if s.len() > 0 && s[0] == '+' {
        s.drop_first()
    } else {
        s
    }
}

/// The value of a non-negative decimal integer written in `s`, when it has
/// one that fits in a `usize`: an optional `+`, then one or more digits,
/// nothing else.
pub open spec fn position_value(s: Seq<char>) -> Option<usize> {
    digits_position(unsigned_digits(s))
}

proof fn lemma_digits_value_grows(d: Seq<char>, i: int, j: int)
    requires
        0 <= i <= j <= d.len(),
        all_digits(d),
    ensures
        digits_value(d.take(i)) <= digits_value(d.take(j)),
    decreases j - i,
{
    if i < j {
        lemma_digits_value_grows(d, i, j - 1);
        assert(d.take(j).drop_last() == d.take(j - 1));
        assert(is_digit(d[j - 1]));
    }
}

/// Reads a non-negative decimal integer; `None` for an empty string, a sign
/// other than a leading `+`, any other character, or a value past `usize`.
pub fn parse_position(s: &str) -> (r: Option<usize>)
    ensures
        r == position_value(s@),
{
    let len = s.unicode_len();
    let mut start: usize = 0;
    if len > 0 && s.get_char(0) == '+' {
        start = 1;
    }
    let ghost d = unsigned_digits(s@);
    assert(d == s@.subrange(start as int, len as int));
    if start == len {
        return None;
    }
    let mut value: usize = 0;
    let mut n: usize = start;
    while n < len
        invariant
            d == unsigned_digits(s@),
            d == s@.subrange(start as int, len as int),
            len == s@.len(),
            start <= n <= len,
            all_digits(d.take(n - start)),
            value == digits_value(d.take(n - start)),
        decreases len - n,
    {
        let c = s.get_char(n);
        assert(d[n - start] == c);
        if !('0' <= c && c <= '9') {
            assert(!all_digits(d));
            return None;
        }
        let ghost k = n - start;
        assert(d.take(k + 1).drop_last() == d.take(k));
        assert(d.take(k + 1).last() == c);
        let digit = (c as u32 - '0' as u32) as usize;
        assert(all_digits(d.take(k + 1))) by {
            assert forall|i: int| 0 <= i < k + 1 implies is_digit(#[trigger] d.take(k + 1)[i]) by {
                if i < k {
                    assert(d.take(k + 1)[i] == d.take(k)[i]);
                }
            }
        }
        match value.checked_mul(10) {
            Some(m) => match m.checked_add(digit) {
                Some(v) => {
                    value = v;
                },
                None => {
                    proof {
                        lemma_rest_after_overflow(d, k + 1);
                    }
                    return None;
                },
            },
            None => {
                proof {
                    lemma_rest_after_overflow(d, k + 1);
                }
                return None;
            },
        }
        n = n + 1;
    }
    assert(d.take(len - start) == d);
    Some(value)
}

/// The value written by one or more decimal digits, when it fits in a `usize`.
pub open spec fn digits_position(d: Seq<char>) -> Option<usize> {
    if d.len() > 0 && all_digits(d) && digits_value(d) <= usize::MAX {
        Some(digits_value(d) as usize)
    } else {
        None
    }
}

/// Once a prefix of the digits is past `usize`, no digits that follow can
/// bring the whole back in range.
proof fn lemma_rest_after_overflow(d: Seq<char>, i: int)
    requires
        0 <= i <= d.len(),
        digits_value(d.take(i)) > usize::MAX,
    ensures
        digits_position(d) is None,
{
    if all_digits(d) {
        lemma_digits_value_grows(d, i, d.len() as int);
        assert(d.take(d.len() as int) == d);
    }
}


pub open spec fn opt_command_view(c: Option<Command>) -> Option<CommandModel> {
    match c {
        Some(c) => Some(c@),
        None => None,
    }
}

/// The command grammar: a keyword, then exactly the arguments it takes.
/// Anything else, a position that does not read as a number included, is no
/// command.
pub open spec fn match_args(a: Seq<Seq<char>>) -> Option<CommandModel> {
    if a.len() == 2 && a[0] == "add"@ {
        Some(CommandModel::Add(TodoModel { title: a[1], description: None }))
    } else if a.len() == 3 && a[0] == "add"@ {
        Some(CommandModel::Add(TodoModel { title: a[1], description: Some(a[2]) }))
    } else if a.len() == 2 && a[0] == "remove"@ {
        match position_value(a[1]) {
            Some(i) => Some(CommandModel::Remove(i)),
            None => None,
        }
    } else if a.len() == 1 && a[0] == "list"@ {
        Some(CommandModel::List)
    } else if a.len() == 2 && a[0] == "load"@ {
        Some(CommandModel::Load(a[1]))
    } else if a.len() == 2 && a[0] == "save"@ {
        Some(CommandModel::Save(a[1]))
    } else if a.len() == 1 && a[0] == "help"@ {
        Some(CommandModel::Help)
    } else {
        None
    }
}

/// Whether `s` is exactly the word `w`.
fn is_word(s: &String, w: &str) -> (r: bool)
    ensures
        r == (s@ == w@),
{
    let n = s.as_str().unicode_len();
    if n != w.unicode_len() {
        return false;
    }
    let mut i: usize = 0;
    while i < n
        invariant
            n == s@.len(),
            n == w@.len(),
            0 <= i <= n,
            forall|j: int| 0 <= j < i ==> s@[j] == w@[j],
        decreases n - i,
    {
        if s.as_str().get_char(i) != w.get_char(i) {
            return false;
        }
        i = i + 1;
    }
    assert(s@ =~= w@);
    true
}

/// Turns a typed line into a command, or `None` where the line does not
/// follow the grammar.
pub fn parse_command(input: String) -> (r: Option<Command>)
    ensures
        opt_command_view(r) == match_args(tokens(input@)),
{
    let mut args = get_args(input);
    let ghost a = args.deep_view();
    assert(a.len() == args@.len());
    assert(forall|i: int| 0 <= i < args@.len() ==> a[i] == (#[trigger] args@[i])@);
    let n = args.len();
    if n == 0 || n > 3 {
        return None;
    }
    let word = args.remove(0);
    assert(a[0] == word@);
    assert(forall|i: int| 0 <= i < args@.len() ==> a[i + 1] == (#[trigger] args@[i])@);
    if n == 1 {
        if is_word(&word, "list") {
            Some(Command::List)
        } else if is_word(&word, "help") {
            Some(Command::Help)
        } else {
            None
        }
    } else if n == 2 {
        let arg = args.pop().unwrap();
        assert(a[1] == arg@);
        if is_word(&word, "add") {
            Some(Command::Add(Todo::new(arg, None)))
        } else if is_word(&word, "remove") {
            match parse_position(arg.as_str()) {
                Some(id) => Some(Command::Remove(id)),
                None => None,
            }
        } else if is_word(&word, "load") {
            Some(Command::Load(arg))
        } else if is_word(&word, "save") {
            Some(Command::Save(arg))
        } else {
            None
        }
    } else {
        let desc = args.pop().unwrap();
        let title = args.pop().unwrap();
        assert(a[1] == title@);
        assert(a[2] == desc@);
        if is_word(&word, "add") {
            Some(Command::Add(Todo::new(title, Some(desc))))
        } else {
            None
        }
    }
}

/// Arguments written back as a line, separated by single spaces.
pub open spec fn join(toks: Seq<Seq<char>>) -> Seq<char>
    decreases toks.len(),
{
    if toks.len() == 0 {
        Seq::empty()
    } else if toks.len() == 1 {
        toks[0]
    } else {
        join(toks.drop_last()) + seq![' '] + toks.last()
    }
}

pub open spec fn no_quote(s: Seq<char>) -> bool {
    forall|i: int| 0 <= i < s.len() ==> s[i] != '"'
}

/// Text with neither a space nor a quote in it.
pub open spec fn bare(s: Seq<char>) -> bool {
    forall|i: int| 0 <= i < s.len() ==> s[i] != ' ' && s[i] != '"'
}

/// A non-empty argument that reads back as itself.
pub open spec fn plain_word(w: Seq<char>) -> bool {
    w.len() > 0 && bare(w)
}

proof fn lemma_scan_concat(st: ScanState, p: Seq<char>, q: Seq<char>)
    ensures
        scan(st, p + q) == scan(scan(st, p), q),
    decreases q.len(),
{
    if q.len() == 0 {
        assert(p + q == p);
    } else {
        lemma_scan_concat(st, p, q.drop_last());
        assert((p + q).drop_last() == p + q.drop_last());
        assert((p + q).last() == q.last());
    }
}

proof fn lemma_scan_bare(st: ScanState, w: Seq<char>)
    requires
        !st.quoted,
        bare(w),
    ensures
        scan(st, w) == (ScanState { current: st.current + w, ..st }),
    decreases w.len(),
{
    if w.len() == 0 {
        assert(st.current + w == st.current);
    } else {
        lemma_scan_bare(st, w.drop_last());
        assert(st.current + w == (st.current + w.drop_last()).push(w.last()));
    }
}

proof fn lemma_scan_join(toks: Seq<Seq<char>>)
    requires
        toks.len() > 0,
        forall|i: int| 0 <= i < toks.len() ==> plain_word(#[trigger] toks[i]),
    ensures
        scan(scan_start(), join(toks)) == (ScanState {
            args: toks.drop_last(),
            current: toks.last(),
            quoted: false,
        }),
    decreases toks.len(),
{
    let last = toks.last();
    assert(plain_word(toks[toks.len() - 1]));
    if toks.len() == 1 {
        lemma_scan_bare(scan_start(), toks[0]);
        assert(Seq::<char>::empty() + toks[0] == toks[0]);
        assert(toks.drop_last() == Seq::<Seq<char>>::empty());
    } else {
        let init = toks.drop_last();
        assert(forall|i: int| 0 <= i < init.len() ==> init[i] == toks[i]);
        lemma_scan_join(init);
        let j = join(init);
        lemma_scan_concat(scan_start(), j + seq![' '], last);
        lemma_scan_concat(scan_start(), j, seq![' ']);
        let sj = scan(scan_start(), j);
        assert(seq![' '].drop_last() =~= Seq::<char>::empty());
        assert(seq![' '].last() == ' ');
        assert(scan(sj, Seq::<char>::empty()) == sj);
        assert(scan(sj, seq![' ']) == scan_step(sj, ' '));
        let after_space = scan(scan_start(), j + seq![' ']);
        assert(plain_word(init[init.len() - 1]));
        assert(init.drop_last().push(init.last()) =~= init);
        assert(after_space == (ScanState { args: init, current: Seq::empty(), quoted: false }));
        lemma_scan_bare(after_space, last);
        assert(Seq::<char>::empty() + last == last);
    }
}

proof fn lemma_scan_quote_free(s: Seq<char>)
    requires
        no_quote(s),
    ensures
        !scan(scan_start(), s).quoted,
        bare(scan(scan_start(), s).current),
        forall|i: int|
            0 <= i < scan(scan_start(), s).args.len() ==> plain_word(
                #[trigger] scan(scan_start(), s).args[i],
            ),
    decreases s.len(),
{
    if s.len() > 0 {
        let p = s.drop_last();
        assert(no_quote(p)) by {
            assert forall|i: int| 0 <= i < p.len() implies p[i] != '"' by {
                assert(p[i] == s[i]);
            }
        }
        lemma_scan_quote_free(p);
        assert(s.last() == s[s.len() - 1]);
        let st = scan(scan_start(), p);
        if s.last() != ' ' {
            assert(bare(st.current.push(s.last()))) by {
                assert forall|i: int| 0 <= i < st.current.len() + 1 implies
                    #[trigger] st.current.push(s.last())[i] != ' '
                    && st.current.push(s.last())[i] != '"' by {
                    if i < st.current.len() {
                        assert(st.current.push(s.last())[i] == st.current[i]);
                    }
                }
            }
        } else if st.current.len() > 0 {
            let a = st.args.push(st.current);
            assert(forall|i: int| 0 <= i < st.args.len() ==> a[i] == st.args[i]);
            assert(a[st.args.len() as int] == st.current);
        }
    }
}

/// Re-tokenizing the arguments of a line without quotes, written back with
/// single spaces between them, gives the same arguments.
pub proof fn lemma_retokenize_joined(s: Seq<char>)
    requires
        no_quote(s),
    ensures
        tokens(join(tokens(s))) == tokens(s),
{
    let st = scan(scan_start(), s);
    lemma_scan_quote_free(s);
    let t = tokens(s);
    assert(forall|i: int| 0 <= i < t.len() ==> plain_word(#[trigger] t[i])) by {
        assert forall|i: int| 0 <= i < t.len() implies plain_word(#[trigger] t[i]) by {
            if i < st.args.len() {
                assert(t[i] == st.args[i]);
            }
        }
    }
    if t.len() == 0 {
        assert(join(t) == Seq::<char>::empty());
    } else {
        lemma_scan_join(t);
        assert(plain_word(t[t.len() - 1]));
        assert(t.drop_last().push(t.last()) == t);
    }
}

} // verus!
