//! Splitting a command line into piped commands, their arguments and their
//! redirections.
//!
//! A command line is cleared of line feeds, carriage returns and tabs, cut
//! at every `|` into commands, and each command is cut at every space into
//! arguments; commands and arguments lose their leading and trailing
//! whitespace.  `<`, `>` and `>>` followed by an argument name the files
//! that a command reads, writes and appends to.
use vstd::prelude::*;
use vstd::string::*;

verus! {

/// Upper bound on the number of arguments of a single command.
pub const MAX_ARGS_NUM: usize = 20;

/// `c` is whitespace, in the sense of Unicode's `White_Space` property.
pub open spec fn is_ws(c: char) -> bool {
    let u = c as u32;
    ||| 9 <= u <= 13
    ||| u == 32
    ||| u == 0x85
    ||| u == 0xA0
    ||| u == 0x1680
    ||| 0x2000 <= u <= 0x200A
    ||| u == 0x2028
    ||| u == 0x2029
    ||| u == 0x202F
    ||| u == 0x205F
    ||| u == 0x3000
}

/// `s` without its leading whitespace.
pub open spec fn trim_start(s: Seq<char>) -> Seq<char>
    decreases s.len(),
{
    if s.len() > 0 && is_ws(s[0]) {
        trim_start(s.drop_first())
    } else {
        s
    }
}

/// `s` without its trailing whitespace.
pub open spec fn trim_end(s: Seq<char>) -> Seq<char>
    decreases s.len(),
{
    if s.len() > 0 && is_ws(s.last()) {
        trim_end(s.drop_last())
    } else {
        s
    }
}

/// `s` without leading and trailing whitespace.
pub open spec fn trim(s: Seq<char>) -> Seq<char> {
    trim_end(trim_start(s))
}

/// The pieces of `s` between the occurrences of `sep`; one piece more than
/// there are separators.
pub open spec fn split_on(s: Seq<char>, sep: char) -> Seq<Seq<char>>
    decreases s.len(),
{
    if s.len() == 0 {
        seq![Seq::<char>::empty()]
    } else {
        let r = split_on(s.drop_last(), sep);
        if s.last() == sep {
            r.push(Seq::<char>::empty())
        } else {
            r.update(r.len() - 1, r.last().push(s.last()))
        }
    }
}

/// The pieces of `s` between the occurrences of `sep`, each trimmed.
pub open spec fn trimmed_pieces(s: Seq<char>, sep: char) -> Seq<Seq<char>> {
    split_on(s, sep).map_values(|p: Seq<char>| trim(p))
}

/// `c` is a line feed, a carriage return or a tab.
pub open spec fn is_escape(c: char) -> bool {
    c == '\n' || c == '\r' || c == '\t'
}

/// `s` without its line feeds, carriage returns and tabs.
pub open spec fn del_escape(s: Seq<char>) -> Seq<char>
    decreases s.len(),
{
    if s.len() == 0 {
        s
    } else if is_escape(s.last()) {
        del_escape(s.drop_last())
    } else {
        del_escape(s.drop_last()).push(s.last())
    }
}

pub(crate) proof fn lemma_split_on_len(s: Seq<char>, sep: char)
    ensures
        split_on(s, sep).len() >= 1,
    decreases s.len(),
{
    if s.len() > 0 {
        lemma_split_on_len(s.drop_last(), sep);
    }
}

fn is_ws_exec(c: char) -> (b: bool)
    ensures
        b == is_ws(c),
{
    let u = c as u32;
    (9 <= u && u <= 13) || u == 32 || u == 0x85 || u == 0xA0 || u == 0x1680 || (0x2000 <= u && u <= 0x200A)
        || u == 0x2028 || u == 0x2029 || u == 0x202F || u == 0x205F || u == 0x3000
}

/// The characters of `s` from `from` to `to`, trimmed.
fn trimmed(s: &str, from: usize, to: usize) -> (r: String)
    requires
        from <= to <= s@.len(),
    ensures
        r@ == trim(s@.subrange(from as int, to as int)),
{
    let mut a = from;
    while a < to && is_ws_exec(s.get_char(a))
        invariant
            from <= a <= to <= s@.len(),
            trim_start(s@.subrange(from as int, to as int)) == trim_start(s@.subrange(a as int, to as int)),
        decreases to - a,
    {
        proof {
            assert(s@.subrange(a as int, to as int).drop_first() =~= s@.subrange(a + 1, to as int));
        }
        a = a + 1;
    }
    let mut b = to;
    while b > a && is_ws_exec(s.get_char(b - 1))
        invariant
            from <= a <= b <= to <= s@.len(),
            trim_end(s@.subrange(a as int, to as int)) == trim_end(s@.subrange(a as int, b as int)),
        decreases b - a,
    {
        proof {
            assert(s@.subrange(a as int, b as int).drop_last() =~= s@.subrange(a as int, b - 1));
        }
        b = b - 1;
    }
    proof {
        if a == to {
            assert(s@.subrange(a as int, to as int).len() == 0);
        }
        assert(trim_start(s@.subrange(a as int, to as int)) == s@.subrange(a as int, to as int));
        assert(trim_end(s@.subrange(a as int, b as int)) == s@.subrange(a as int, b as int));
    }
    String::from_str(s.substring_char(a, b))
}

/// The pieces of `s` between the occurrences of `sep`, each trimmed.
fn split_trim(s: &str, sep: char) -> (r: Vec<String>)
    ensures
        r.deep_view() == trimmed_pieces(s@, sep),
{
    let n = s.unicode_len();
    let mut result: Vec<String> = Vec::new();
    let mut start: usize = 0;
    let mut i: usize = 0;
    let ghost mut done: Seq<Seq<char>> = Seq::empty();
    proof {
        assert(s@.take(0) =~= Seq::<char>::empty());
        assert(s@.subrange(0, 0) =~= Seq::<char>::empty());
        assert(result.deep_view() =~= done.map_values(|p: Seq<char>| trim(p)));
    }
    while i < n
        invariant
            n == s@.len(),
            start <= i <= n,
            split_on(s@.take(i as int), sep) == done.push(s@.subrange(start as int, i as int)),
            result.deep_view() == done.map_values(|p: Seq<char>| trim(p)),
        decreases n - i,
    {
        proof {
            assert(s@.take(i + 1).drop_last() =~= s@.take(i as int));
            assert(s@.take(i + 1).last() == s@[i as int]);
        }
        if s.get_char(i) == sep {
            let piece = trimmed(s, start, i);
            let ghost dv0 = result.deep_view();
            let ghost pv = piece@;
            result.push(piece);
            proof {
                assert(result.deep_view() =~= dv0.push(pv));
                let d0 = done;
                done = done.push(s@.subrange(start as int, i as int));
                assert(done.map_values(|p: Seq<char>| trim(p)) =~= d0.map_values(|p: Seq<char>| trim(p)).push(pv));
            }
            start = i + 1;
            proof {
                assert(s@.subrange(start as int, i + 1) =~= Seq::<char>::empty());
            }
        } else {
            proof {
                assert(s@.subrange(start as int, i + 1) =~= s@.subrange(start as int, i as int).push(s@[i as int]));
            }
        }
        i = i + 1;
    }
    let piece = trimmed(s, start, n);
    let ghost dv0 = result.deep_view();
    let ghost pv = piece@;
    result.push(piece);
    proof {
        assert(s@.take(n as int) =~= s@);
        assert(result.deep_view() =~= dv0.push(pv));
        let all = done.push(s@.subrange(start as int, n as int));
        assert(all.map_values(|p: Seq<char>| trim(p)) =~= done.map_values(|p: Seq<char>| trim(p)).push(pv));
    }
    result
}

/// The pieces of `s` between the occurrences of `sep`, as they are.
pub(crate) fn split_plain(s: &str, sep: char) -> (r: Vec<String>)
    ensures
        r.deep_view() == split_on(s@, sep),
{
    let n = s.unicode_len();
    let mut result: Vec<String> = Vec::new();
    let mut start: usize = 0;
    let mut i: usize = 0;
    let ghost mut done: Seq<Seq<char>> = Seq::empty();
    proof {
        assert(s@.take(0) =~= Seq::<char>::empty());
        assert(s@.subrange(0, 0) =~= Seq::<char>::empty());
        assert(result.deep_view() =~= done);
    }
    while i < n
        invariant
            n == s@.len(),
            start <= i <= n,
            split_on(s@.take(i as int), sep) == done.push(s@.subrange(start as int, i as int)),
            result.deep_view() == done,
        decreases n - i,
    {
        proof {
            assert(s@.take(i + 1).drop_last() =~= s@.take(i as int));
            assert(s@.take(i + 1).last() == s@[i as int]);
        }
        if s.get_char(i) == sep {
            let piece = String::from_str(s.substring_char(start, i));
            let ghost dv0 = result.deep_view();
            result.push(piece);
            proof {
                assert(result.deep_view() =~= dv0.push(s@.subrange(start as int, i as int)));
                done = done.push(s@.subrange(start as int, i as int));
            }
            start = i + 1;
            proof {
                assert(s@.subrange(start as int, i + 1) =~= Seq::<char>::empty());
            }
        } else {
            proof {
                assert(s@.subrange(start as int, i + 1) =~= s@.subrange(start as int, i as int).push(s@[i as int]));
            }
        }
        i = i + 1;
    }
    let piece = String::from_str(s.substring_char(start, n));
    let ghost dv0 = result.deep_view();
    result.push(piece);
    proof {
        assert(s@.take(n as int) =~= s@);
        assert(result.deep_view() =~= dv0.push(s@.subrange(start as int, n as int)));
    }
    result
}

/// `command` without its line feeds, carriage returns and tabs.
pub fn del_escape_ch(command: &String) -> (r: String)
    ensures
        r@ == del_escape(command@),
{
    let s = command.as_str();
    let n = s.unicode_len();
    let mut result = String::new();
    let mut start: usize = 0;
    let mut i: usize = 0;
    while i < n
        invariant
            n == s@.len(),
            s@ == command@,
            start <= i <= n,
            result@ + s@.subrange(start as int, i as int) == del_escape(s@.take(i as int)),
        decreases n - i,
    {
        proof {
            assert(s@.take(i + 1).drop_last() =~= s@.take(i as int));
            assert(s@.take(i + 1).last() == s@[i as int]);
        }
        let c = s.get_char(i);
        if c == '\n' || c == '\r' || c == '\t' {
            result.append(s.substring_char(start, i));
            start = i + 1;
            proof {
                assert(s@.subrange(start as int, i + 1) =~= Seq::<char>::empty());
                assert(result@ + s@.subrange(start as int, i + 1) =~= result@);
            }
        } else {
            proof {
                assert(s@.subrange(start as int, i + 1) =~= s@.subrange(start as int, i as int).push(c));
                assert(result@ + s@.subrange(start as int, i + 1) =~= (result@ + s@.subrange(start as int, i as int)).push(c));
            }
        }
        i = i + 1;
    }
    result.append(s.substring_char(start, n));
    proof {
        assert(s@.take(n as int) =~= s@);
    }
    result
}

/// The commands of a command line: its pieces between `|`, trimmed.
pub fn get_single(command: &String) -> (r: Vec<String>)
    ensures
        r.deep_view() == trimmed_pieces(command@, '|'),
{
    split_trim(command.as_str(), '|')
}

/// The arguments of a command: its pieces between spaces, trimmed.
pub fn get_args(single_command: &String) -> (r: Vec<String>)
    ensures
        r.deep_view() == trimmed_pieces(single_command@, ' '),
{
    split_trim(single_command.as_str(), ' ')
}

/// Number of occurrences of `c` in `s`.
pub open spec fn count_of(s: Seq<char>, c: char) -> nat
    decreases s.len(),
{
    if s.len() == 0 {
        0
    } else {
        count_of(s.drop_last(), c) + if s.last() == c { 1nat } else { 0nat }
    }
}

/// A cleared command line holds no line feed, carriage return or tab.
pub proof fn lemma_del_escape_clean(s: Seq<char>)
    ensures
        forall|i: int| 0 <= i < del_escape(s).len() ==> !is_escape(#[trigger] del_escape(s)[i]),
    decreases s.len(),
{
    if s.len() > 0 {
        lemma_del_escape_clean(s.drop_last());
        let r = del_escape(s.drop_last());
        if !is_escape(s.last()) {
            assert forall|i: int| 0 <= i < del_escape(s).len() implies !is_escape(#[trigger] del_escape(s)[i]) by {
                if i < r.len() {
                    assert(del_escape(s)[i] == r[i]);
                }
            }
        }
    }
}

/// A command line holds one command more than it holds `|`.
pub proof fn lemma_commands_per_pipe(s: Seq<char>)
    ensures
        trimmed_pieces(s, '|').len() == count_of(s, '|') + 1,
    decreases s.len(),
{
    if s.len() > 0 {
        lemma_commands_per_pipe(s.drop_last());
    }
}

/// The name that stands for no file.
pub open spec fn none_name() -> Seq<char> {
    seq!['N', 'O', 'N', 'E']
}

/// The token before a file that a command reads.
pub open spec fn read_tok() -> Seq<char> {
    seq!['<']
}

/// The token before a file that a command writes.
pub open spec fn write_tok() -> Seq<char> {
    seq!['>']
}

/// The token before a file that a command appends to.
pub open spec fn add_tok() -> Seq<char> {
    seq!['>', '>']
}

/// The argument after the last `tok` among the first `n` arguments.
pub open spec fn target_of(args: Seq<Seq<char>>, tok: Seq<char>, n: int) -> Option<Seq<char>>
    decreases n,
{
    if n <= 0 {
        None
    } else if args[n - 1] == tok {
        Some(args[n])
    } else {
        target_of(args, tok, n - 1)
    }
}

/// The file that the arguments `args` name after `tok`, the last one if
/// there are several; `NONE` if there is none.
pub open spec fn redirect_file(args: Seq<Seq<char>>, tok: Seq<char>) -> Seq<char> {
    match target_of(args, tok, args.len() - 1) {
        Some(f) => f,
        None => none_name(),
    }
}

/// The arguments of a command.
pub open spec fn args_of(cmd: Seq<char>) -> Seq<Seq<char>> {
    trimmed_pieces(cmd, ' ')
}

/// 1 when a redirection names a file, 0 for `NONE`.
pub open spec fn flag_of(file: Seq<char>) -> usize {
    if file == none_name() { 0 } else { 1 }
}

/// `a` is one of the redirection tokens.
pub open spec fn is_redirect(a: Seq<char>) -> bool {
    a == read_tok() || a == write_tok() || a == add_tok()
}

/// The arguments without the redirection tokens and the argument after
/// each; `None` where a redirection token is the last argument.
pub open spec fn strip_redirects(args: Seq<Seq<char>>) -> Option<Seq<Seq<char>>>
    decreases args.len(),
{
    if args.len() == 0 {
        Some(args)
    } else if is_redirect(args[0]) {
        if args.len() == 1 {
            None
        } else {
            strip_redirects(args.skip(2))
        }
    } else {
        match strip_redirects(args.skip(1)) {
            Some(r) => Some(seq![args[0]] + r),
            None => None,
        }
    }
}

/// `a` reads as the literal `t`.
fn same_text(a: &String, t: &str) -> (r: bool)
    ensures
        r == (a@ == t@),
{
    let x = a.as_str();
    let n = x.unicode_len();
    if n != t.unicode_len() {
        return false;
    }
    let mut i: usize = 0;
    while i < n
        invariant
            n == x@.len() == t@.len(),
            x@ == a@,
            i <= n,
            forall|k: int| 0 <= k < i ==> x@[k] == t@[k],
        decreases n - i,
    {
        if x.get_char(i) != t.get_char(i) {
            return false;
        }
        i = i + 1;
    }
    proof {
        assert(x@ =~= t@);
    }
    true
}

fn none_string() -> (r: String)
    ensures
        r@ == none_name(),
{
    proof {
        reveal_strlit("NONE");
    }
    String::from_str("NONE")
}

/// The files that a command reads, writes and appends to, each `NONE`
/// where it names none; the last of several counts.
pub fn check_redirect(single_command: &String) -> (r: (String, String, String))
    ensures
        r.0@ == redirect_file(args_of(single_command@), read_tok()),
        r.1@ == redirect_file(args_of(single_command@), write_tok()),
        r.2@ == redirect_file(args_of(single_command@), add_tok()),
{
    let args = get_args(single_command);
    let ghost a = args.deep_view();
    proof {
        lemma_split_on_len(single_command@, ' ');
        assert(a.len() == args@.len());
        reveal_strlit("<");
        reveal_strlit(">");
        reveal_strlit(">>");
    }
    let mut i: usize = 0;
    let mut read_filename = none_string();
    let mut write_filename = none_string();
    let mut add_filename = none_string();
    while i < args.len() - 1
        invariant
            a == args.deep_view(),
            a == args_of(single_command@),
            args.len() >= 1,
            i <= args.len() - 1,
            read_filename@ == match target_of(a, read_tok(), i as int) { Some(f) => f, None => none_name() },
            write_filename@ == match target_of(a, write_tok(), i as int) { Some(f) => f, None => none_name() },
            add_filename@ == match target_of(a, add_tok(), i as int) { Some(f) => f, None => none_name() },
        decreases args.len() - i,
    {
        assert(a[i as int] == args[i as int]@);
        assert(a[i + 1] == args[i + 1]@);
        proof {
            reveal_strlit("<");
            reveal_strlit(">");
            reveal_strlit(">>");
            assert("<"@ =~= read_tok());
            assert(">"@ =~= write_tok());
            assert(">>"@ =~= add_tok());
        }
        if same_text(&args[i], "<") {
            read_filename = args[i + 1].clone();
        }
        if same_text(&args[i], ">") {
            write_filename = args[i + 1].clone();
        }
        if same_text(&args[i], ">>") {
            add_filename = args[i + 1].clone();
        }
        i += 1;
    }
    (read_filename, write_filename, add_filename)
}

/// A command line taken apart.
pub struct CmdInfo {
    /// Number of pipes; there is one command more.
    pub pipenum: usize,
    /// The commands, trimmed.
    pub single_command: Vec<String>,
    /// 1 where a command reads a file.
    pub read_redirect: Vec<usize>,
    /// The file that each command reads, or `NONE`.
    pub read_filename: Vec<String>,
    /// 1 where a command writes a file.
    pub write_redirect: Vec<usize>,
    /// The file that each command writes, or `NONE`.
    pub write_filename: Vec<String>,
    /// 1 where a command appends to a file.
    pub add_redirect: Vec<usize>,
    /// The file that each command appends to, or `NONE`.
    pub add_filename: Vec<String>,
}

/// One command taken apart.
pub struct SinglecmdInfo {
    /// The command's first argument.
    pub command: String,
    /// The other arguments.
    pub args: Vec<String>,
    /// 1 if the command reads a file.
    pub read_redirect: usize,
    /// The file it reads, or `NONE`.
    pub read_filename: String,
    /// 1 if the command writes a file.
    pub write_redirect: usize,
    /// The file it writes, or `NONE`.
    pub write_filename: String,
    /// 1 if the command appends to a file.
    pub add_redirect: usize,
    /// The file it appends to, or `NONE`.
    pub add_filename: String,
}

impl CmdInfo {
    /// What `analyze` makes of the commands `cmds`: the commands and, for
    /// each, its redirections.
    pub open spec fn describes(&self, cmds: Seq<Seq<char>>) -> bool {
        &&& cmds.len() >= 1
        &&& self.pipenum == cmds.len() - 1
        &&& self.single_command.deep_view() == cmds
        &&& self.read_filename@.len() == cmds.len()
        &&& self.write_filename@.len() == cmds.len()
        &&& self.add_filename@.len() == cmds.len()
        &&& self.read_redirect@.len() == cmds.len()
        &&& self.write_redirect@.len() == cmds.len()
        &&& self.add_redirect@.len() == cmds.len()
        &&& forall|i: int| 0 <= i < cmds.len() ==> {
            &&& #[trigger] self.read_filename@[i]@ == redirect_file(args_of(cmds[i]), read_tok())
            &&& self.write_filename@[i]@ == redirect_file(args_of(cmds[i]), write_tok())
            &&& self.add_filename@[i]@ == redirect_file(args_of(cmds[i]), add_tok())
            &&& self.read_redirect@[i] == flag_of(self.read_filename@[i]@)
            &&& self.write_redirect@[i] == flag_of(self.write_filename@[i]@)
            &&& self.add_redirect@[i] == flag_of(self.add_filename@[i]@)
        }
    }

    /// The vectors agree in length with the number of commands.
    pub open spec fn wf(&self) -> bool {
        &&& self.pipenum < usize::MAX
        &&& self.single_command@.len() == self.pipenum + 1
        &&& self.read_filename@.len() == self.pipenum + 1
        &&& self.write_filename@.len() == self.pipenum + 1
        &&& self.add_filename@.len() == self.pipenum + 1
        &&& self.read_redirect@.len() == self.pipenum + 1
        &&& self.write_redirect@.len() == self.pipenum + 1
        &&& self.add_redirect@.len() == self.pipenum + 1
    }
}

impl SinglecmdInfo {
    /// Drops every redirection token and the argument after it from the
    /// arguments.
    pub fn del_redirect(&mut self)
        requires
            strip_redirects(old(self).args.deep_view()) is Some,
        ensures
            Some(final(self).args.deep_view()) == strip_redirects(old(self).args.deep_view()),
            final(self).command == old(self).command,
            final(self).read_redirect == old(self).read_redirect,
            final(self).read_filename == old(self).read_filename,
            final(self).write_redirect == old(self).write_redirect,
            final(self).write_filename == old(self).write_filename,
            final(self).add_redirect == old(self).add_redirect,
            final(self).add_filename == old(self).add_filename,
    {
        let ghost orig = self.args.deep_view();
        let mut i: usize = 0;
        proof {
            assert(self.args.deep_view().skip(0) =~= orig);
            assert(self.args.deep_view().take(0) + orig =~= orig);
        }
        while i < self.args.len()
            invariant
                i <= self.args@.len(),
                strip_redirects(self.args.deep_view().skip(i as int)) is Some,
                strip_redirects(orig) == Some(
                    self.args.deep_view().take(i as int) + strip_redirects(self.args.deep_view().skip(i as int))->0,
                ),
                self.command == old(self).command,
                self.read_redirect == old(self).read_redirect,
                self.read_filename == old(self).read_filename,
                self.write_redirect == old(self).write_redirect,
                self.write_filename == old(self).write_filename,
                self.add_redirect == old(self).add_redirect,
                self.add_filename == old(self).add_filename,
            decreases self.args@.len() - i,
        {
            let ghost dv = self.args.deep_view();
            let ghost rest = dv.skip(i as int);
            proof {
                assert(rest.len() > 0);
                assert(rest[0] == self.args@[i as int]@);
                reveal_strlit("<");
                reveal_strlit(">");
                reveal_strlit(">>");
                assert("<"@ =~= read_tok());
                assert(">"@ =~= write_tok());
                assert(">>"@ =~= add_tok());
            }
            if same_text(&self.args[i], "<") || same_text(&self.args[i], ">") || same_text(&self.args[i], ">>") {
                proof {
                    assert(is_redirect(rest[0]));
                    assert(rest.len() >= 2);
                    assert(rest.skip(2) =~= dv.skip(i + 2));
                }
                self.args.remove(i);
                self.args.remove(i);
                proof {
                    let nv = self.args.deep_view();
                    assert(nv.take(i as int) =~= dv.take(i as int));
                    assert(nv.skip(i as int) =~= dv.skip(i + 2));
                }
                continue;
            }
            proof {
                assert(!is_redirect(rest[0]));
                assert(rest.skip(1) =~= dv.skip(i + 1));
                assert(dv.take(i + 1) =~= dv.take(i as int).push(rest[0]));
                let r = strip_redirects(dv.skip(i + 1))->0;
                assert(dv.take(i as int) + (seq![rest[0]] + r) =~= dv.take(i + 1) + r);
            }
            i += 1;
        }
        proof {
            let dv = self.args.deep_view();
            assert(dv.skip(i as int) =~= Seq::<Seq<char>>::empty());
            assert(dv.take(i as int) =~= dv);
            assert(dv + Seq::<Seq<char>>::empty() =~= dv);
        }
    }
}

impl CmdInfo {
    /// Command `index` taken apart: its first argument, its other arguments
    /// without redirections, and its redirections; for an index past the
    /// last command, `NONE` everywhere and no arguments.
    pub fn get_command_info(&self, index: usize) -> (r: SinglecmdInfo)
        requires
            self.wf(),
            index <= self.pipenum ==> strip_redirects(args_of(self.single_command@[index as int]@).drop_first()) is Some,
        ensures
            index <= self.pipenum ==> {
                let args = args_of(self.single_command@[index as int]@);
                &&& r.command@ == args[0]
                &&& Some(r.args.deep_view()) == strip_redirects(args.drop_first())
                &&& r.read_redirect == self.read_redirect@[index as int]
                &&& r.read_filename == self.read_filename@[index as int]
                &&& r.write_redirect == self.write_redirect@[index as int]
                &&& r.write_filename == self.write_filename@[index as int]
                &&& r.add_redirect == self.add_redirect@[index as int]
                &&& r.add_filename == self.add_filename@[index as int]
            },
            index > self.pipenum ==> {
                &&& r.command@ == none_name()
                &&& r.args@.len() == 0
                &&& r.read_redirect == 0
                &&& r.read_filename@ == none_name()
                &&& r.write_redirect == 0
                &&& r.write_filename@ == none_name()
                &&& r.add_redirect == 0
                &&& r.add_filename@ == none_name()
            },
    {
        let mut single_cmdinfo = SinglecmdInfo {
            command: none_string(),
            args: Vec::new(),
            read_redirect: 0,
            read_filename: none_string(),
            write_redirect: 0,
            write_filename: none_string(),
            add_redirect: 0,
            add_filename: none_string(),
        };
        if index <= self.pipenum {
            let mut args_origin = get_args(&self.single_command[index]);
            proof {
                lemma_split_on_len(self.single_command@[index as int]@, ' ');
                assert(args_origin.deep_view().len() == args_origin@.len());
            }
            let ghost a0 = args_origin.deep_view();
            single_cmdinfo.command = args_origin[0].clone();
            args_origin.remove(0);
            proof {
                assert(args_origin.deep_view() =~= a0.drop_first());
            }
            single_cmdinfo.args = args_origin;
            single_cmdinfo.read_redirect = self.read_redirect[index];
            single_cmdinfo.read_filename = self.read_filename[index].clone();
            single_cmdinfo.write_redirect = self.write_redirect[index];
            single_cmdinfo.write_filename = self.write_filename[index].clone();
            single_cmdinfo.add_redirect = self.add_redirect[index];
            single_cmdinfo.add_filename = self.add_filename[index].clone();
        } else {
            proof {
                assert(single_cmdinfo.args.deep_view() =~= Seq::<Seq<char>>::empty());
            }
        }
        single_cmdinfo.del_redirect();
        single_cmdinfo
    }
}

/// Every redirection token among `args` from place `from` on is followed by
/// another argument.
fn redirects_complete(args: &Vec<String>, from: usize) -> (b: bool)
    requires
        from <= args@.len(),
    ensures
        b == strip_redirects(args.deep_view().skip(from as int)) is Some,
{
    let ghost a = args.deep_view();
    let mut i: usize = from;
    while i < args.len()
        invariant
            a == args.deep_view(),
            from <= i <= args@.len(),
            strip_redirects(a.skip(from as int)) is Some <==> strip_redirects(a.skip(i as int)) is Some,
        decreases args@.len() - i,
    {
        let ghost rest = a.skip(i as int);
        proof {
            assert(rest[0] == args@[i as int]@);
            reveal_strlit("<");
            reveal_strlit(">");
            reveal_strlit(">>");
            assert("<"@ =~= read_tok());
            assert(">"@ =~= write_tok());
            assert(">>"@ =~= add_tok());
        }
        if same_text(&args[i], "<") || same_text(&args[i], ">") || same_text(&args[i], ">>") {
            if i + 1 == args.len() {
                proof {
                    assert(rest.len() == 1);
                }
                return false;
            }
            proof {
                assert(rest.skip(2) =~= a.skip(i + 2));
            }
            i = i + 2;
        } else {
            proof {
                assert(rest.skip(1) =~= a.skip(i + 1));
            }
            i = i + 1;
        }
    }
    proof {
        assert(a.skip(i as int) =~= Seq::<Seq<char>>::empty());
    }
    true
}

impl CmdInfo {
    /// Command `index` can be taken apart: every redirection token after
    /// its first argument is followed by a file name.  An index past the
    /// last command can always be asked for.
    pub fn command_info_ok(&self, index: usize) -> (b: bool)
        requires
            self.wf(),
        ensures
            index <= self.pipenum ==> b == strip_redirects(args_of(self.single_command@[index as int]@).drop_first()) is Some,
            index > self.pipenum ==> b,
    {
        if index > self.pipenum {
            return true;
        }
        let args = get_args(&self.single_command[index]);
        proof {
            lemma_split_on_len(self.single_command@[index as int]@, ' ');
            assert(args.deep_view().len() == args@.len());
            assert(args.deep_view().skip(1) =~= args.deep_view().drop_first());
        }
        redirects_complete(&args, 1)
    }

    /// Command `index` taken apart as `get_command_info` does, or `None`
    /// where a redirection token ends its arguments.
    pub fn try_command_info(&self, index: usize) -> (r: Option<SinglecmdInfo>)
        requires
            self.wf(),
        ensures
            r is None <==> (index <= self.pipenum
                && strip_redirects(args_of(self.single_command@[index as int]@).drop_first()) is None),
            index <= self.pipenum ==> (r matches Some(c) ==> {
                let args = args_of(self.single_command@[index as int]@);
                &&& c.command@ == args[0]
                &&& Some(c.args.deep_view()) == strip_redirects(args.drop_first())
                &&& c.read_redirect == self.read_redirect@[index as int]
                &&& c.read_filename == self.read_filename@[index as int]
                &&& c.write_redirect == self.write_redirect@[index as int]
                &&& c.write_filename == self.write_filename@[index as int]
                &&& c.add_redirect == self.add_redirect@[index as int]
                &&& c.add_filename == self.add_filename@[index as int]
            }),
            index > self.pipenum ==> (r matches Some(c) ==> c.command@ == none_name() && c.args@.len() == 0),
    {
        if self.command_info_ok(index) {
            Some(self.get_command_info(index))
        } else {
            None
        }
    }
}

/// Takes the commands `cmds` apart.
pub(crate) fn analyze(single_command: Vec<String>) -> (r: CmdInfo)
    requires
        single_command@.len() >= 1,
    ensures
        r.describes(single_command.deep_view()),
        r.wf(),
{
    let ghost cmds = single_command.deep_view();
    let mut read_redirect: Vec<usize> = Vec::new();
    let mut write_redirect: Vec<usize> = Vec::new();
    let mut add_redirect: Vec<usize> = Vec::new();
    let mut read_filename: Vec<String> = Vec::new();
    let mut write_filename: Vec<String> = Vec::new();
    let mut add_filename: Vec<String> = Vec::new();
    let n = single_command.len();
    let none = none_string();
    let mut i: usize = 0;
    while i < n
        invariant
            n == single_command@.len(),
            cmds == single_command.deep_view(),
            none@ == none_name(),
            i <= n,
            read_filename@.len() == i,
            write_filename@.len() == i,
            add_filename@.len() == i,
            read_redirect@.len() == i,
            write_redirect@.len() == i,
            add_redirect@.len() == i,
            forall|k: int| 0 <= k < i ==> {
                &&& #[trigger] read_filename@[k]@ == redirect_file(args_of(cmds[k]), read_tok())
                &&& write_filename@[k]@ == redirect_file(args_of(cmds[k]), write_tok())
                &&& add_filename@[k]@ == redirect_file(args_of(cmds[k]), add_tok())
                &&& read_redirect@[k] == flag_of(read_filename@[k]@)
                &&& write_redirect@[k] == flag_of(write_filename@[k]@)
                &&& add_redirect@[k] == flag_of(add_filename@[k]@)
            },
        decreases n - i,
    {
        assert(cmds[i as int] == single_command[i as int]@);
        let (read_name, write_name, add_name) = check_redirect(&single_command[i]);
        let ghost (rf0, wf0, af0, rr0, wr0, ar0) = (read_filename@, write_filename@, add_filename@, read_redirect@, write_redirect@, add_redirect@);
        if read_name == none {
            read_redirect.push(0);
        } else {
            read_redirect.push(1);
        }
        if write_name == none {
            write_redirect.push(0);
        } else {
            write_redirect.push(1);
        }
        if add_name == none {
            add_redirect.push(0);
        } else {
            add_redirect.push(1);
        }
        let ghost (rn, wn, an) = (read_name@, write_name@, add_name@);
        read_filename.push(read_name);
        write_filename.push(write_name);
        add_filename.push(add_name);
        proof {
            assert(read_filename@[i as int]@ == rn);
            assert(rn == redirect_file(args_of(cmds[i as int]), read_tok()));
            assert(write_filename@[i as int]@ == wn);
            assert(add_filename@[i as int]@ == an);
            assert(read_redirect@[i as int] == flag_of(rn));
            assert(write_redirect@[i as int] == flag_of(wn));
            assert(add_redirect@[i as int] == flag_of(an));
        }
        i += 1;
        proof {
            assert forall|k: int| 0 <= k < i implies {
                &&& #[trigger] read_filename@[k]@ == redirect_file(args_of(cmds[k]), read_tok())
                &&& write_filename@[k]@ == redirect_file(args_of(cmds[k]), write_tok())
                &&& add_filename@[k]@ == redirect_file(args_of(cmds[k]), add_tok())
                &&& read_redirect@[k] == flag_of(read_filename@[k]@)
                &&& write_redirect@[k] == flag_of(write_filename@[k]@)
                &&& add_redirect@[k] == flag_of(add_filename@[k]@)
            } by {
                if k < i - 1 {
                    assert(rf0[k]@ == redirect_file(args_of(cmds[k]), read_tok()));
                    assert(rr0[k] == flag_of(rf0[k]@));
                    assert(read_filename@[k] == rf0[k]);
                    assert(write_filename@[k] == wf0[k]);
                    assert(add_filename@[k] == af0[k]);
                    assert(read_redirect@[k] == rr0[k]);
                    assert(write_redirect@[k] == wr0[k]);
                    assert(add_redirect@[k] == ar0[k]);
                }
            }
        }
    }
    CmdInfo {
        pipenum: n - 1,
        single_command,
        read_redirect,
        read_filename,
        write_redirect,
        write_filename,
        add_redirect,
        add_filename,
    }
}

/// Takes a command line apart: clears it of line feeds, carriage returns
/// and tabs, cuts it into commands at `|`, and finds each command's
/// redirections.
pub fn command_analysis(command: &String) -> (r: CmdInfo)
    ensures
        r.describes(trimmed_pieces(del_escape(command@), '|')),
        r.wf(),
{
    let clean = del_escape_ch(command);
    let cmds = get_single(&clean);
    proof {
        lemma_split_on_len(clean@, '|');
    }
    analyze(cmds)
}

} // verus!
