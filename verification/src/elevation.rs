//! Running the same command again with administrator rights: the command line of the second
//! process, and the way of its output back to the first.
use crate::text;
use vstd::prelude::*;
use vstd::string::*;

verus! {

/// From this integrity level on a token is an administrator's.
pub const HIGH_INTEGRITY: u32 = 0x3000;

/// Not all privileges were granted.
pub const NOT_ALL_ASSIGNED: u32 = 1300;

/// What the token of this process tells.
#[derive(Clone, Copy, Debug, PartialEq, Eq, Structural)]
pub struct Token {
    pub elevated: Option<bool>,
    pub integrity: Option<u32>,
    pub administrators: bool,
    pub local_system: bool,
}

/// A token that reads raw volumes: an elevated one, or an administrator's of high integrity
/// that never saw a prompt.
pub open spec fn reads_volumes(token: Option<Token>) -> bool {
    match token {
        None => false,
        Some(t) => {
            ||| t.elevated == Some(true)
            ||| t.integrity matches Some(level) && level >= HIGH_INTEGRITY && (t.administrators
                || t.local_system)
        },
    }
}

pub fn is_elevated(token: Option<Token>) -> (r: bool)
    ensures
        r == reads_volumes(token),
{
    match token {
        None => false,
        Some(t) => {
            let asked: bool = match t.elevated {
                Some(e) => e,
                None => false,
            };
            let high: bool = match t.integrity {
                Some(level) => level >= HIGH_INTEGRITY,
                None => false,
            };
            asked || (high && (t.administrators || t.local_system))
        },
    }
}

/// What to say to someone who is no administrator.
pub open spec fn administrator_text() -> Seq<char> {
    "快速扫描需要管理员权限。请 agent 自行在同一个命令上加 --elevate 重试：CLI 会通过 Windows UAC 重新启动自身（一次弹窗，由用户同意），并把子进程输出实时回传到当前流；不调用 gsudo、不改 UAC 或凭据缓存策略。仅当用户明确要求普通目录枚举时才改用 --backend fs，并说明结果不完整。"@
}

/// Refuses unless the process has administrator rights.
pub fn require_administrator(elevated: bool) -> (r: Result<(), &'static str>)
    ensures
        match r {
            Ok(_) => elevated,
            Err(t) => !elevated && t@ == administrator_text(),
        },
{
    if elevated {
        Ok(())
    } else {
        Err(
            "快速扫描需要管理员权限。请 agent 自行在同一个命令上加 --elevate 重试：CLI 会通过 Windows UAC 重新启动自身（一次弹窗，由用户同意），并把子进程输出实时回传到当前流；不调用 gsudo、不改 UAC 或凭据缓存策略。仅当用户明确要求普通目录枚举时才改用 --backend fs，并说明结果不完整。",
        )
    }
}

/// Whether adjusting the privileges of a token granted what was asked for.
pub fn privilege_granted(adjusted: bool, code: u32) -> (r: bool)
    ensures
        r == (adjusted && code != NOT_ALL_ASSIGNED),
{
    adjusted && code != NOT_ALL_ASSIGNED
}

/// So many backslashes.
pub open spec fn slashes(n: nat) -> Seq<u16> {
    Seq::new(n, |i: int| 92u16)
}

/// An argument that would not be read back as it stands.
pub open spec fn needs_quotes(a: Seq<u16>) -> bool {
    a.len() == 0 || exists|i: int|
        0 <= i < a.len() && (#[trigger] a[i] == 0x20 || a[i] == 0x09 || a[i] == 0x22)
}

/// The inside of a quoted argument, `n` backslashes before `t` being held back.
pub open spec fn escaped(t: Seq<u16>, n: nat) -> Seq<u16>
    decreases t.len(),
{
    if t.len() == 0 {
        slashes(2 * n)
    } else if t[0] == 92 {
        escaped(t.skip(1), n + 1)
    } else if t[0] == 34 {
        slashes(2 * n + 1) + seq![34u16] + escaped(t.skip(1), 0)
    } else {
        slashes(n) + seq![t[0]] + escaped(t.skip(1), 0)
    }
}

/// An argument as it stands in a command line.
pub open spec fn quoted(a: Seq<u16>) -> Seq<u16> {
    if needs_quotes(a) {
        seq![34u16] + escaped(a, 0) + seq![34u16]
    } else {
        a
    }
}

/// The command line of the first `n` arguments.
pub open spec fn line_of(args: Seq<Seq<u16>>, n: nat) -> Seq<u16>
    decreases n,
{
    if n == 0 {
        Seq::empty()
    } else {
        let before = line_of(args, (n - 1) as nat);
        with_argument(before, args[n - 1])
    }
}

pub open spec fn with_argument(line: Seq<u16>, a: Seq<u16>) -> Seq<u16> {
    if line.len() == 0 {
        quoted(a)
    } else {
        line + seq![32u16] + quoted(a)
    }
}

/// How a process reads its arguments from a command line: blanks outside quotes separate
/// them; an even number of backslashes before a quote stands for half of them and opens or
/// closes quotes, an odd number for half of them and the quote itself; two quotes inside
/// quotes are one; other backslashes stand for themselves. `open` tells whether quotes are
/// open, `n` backslashes were just read, and `now` is the argument being read.
pub open spec fn arguments(line: Seq<u16>, open: bool, n: nat, now: Option<Seq<u16>>) -> Seq<
    Seq<u16>,
>
    decreases line.len(),
{
    let a = match now {
        None => Seq::empty(),
        Some(a) => a,
    };
    if line.len() == 0 {
        if now is None {
            Seq::empty()
        } else {
            seq![a + slashes(n)]
        }
    } else if line[0] == 92 {
        arguments(line.skip(1), open, n + 1, Some(a))
    } else if line[0] == 34 && n % 2 == 1 {
        arguments(line.skip(1), open, 0, Some(a + slashes(n / 2) + seq![34u16]))
    } else if line[0] == 34 && open && line.len() > 1 && line[1] == 34 {
        arguments(line.skip(2), open, 0, Some(a + slashes(n / 2) + seq![34u16]))
    } else if line[0] == 34 {
        arguments(line.skip(1), !open, 0, Some(a + slashes(n / 2)))
    } else if !open && (line[0] == 0x20 || line[0] == 0x09) {
        if now is None {
            arguments(line.skip(1), open, 0, None)
        } else {
            seq![a + slashes(n)] + arguments(line.skip(1), open, 0, None)
        }
    } else {
        arguments(line.skip(1), open, 0, Some(a + slashes(n) + seq![line[0]]))
    }
}

/// The end of an argument: of the line, or a blank.
spec fn ends(rest: Seq<u16>) -> bool {
    rest.len() == 0 || rest[0] == 32
}

/// What is read after an argument.
spec fn ended(rest: Seq<u16>) -> Seq<Seq<u16>> {
    if rest.len() == 0 {
        Seq::empty()
    } else {
        arguments(rest.skip(1), false, 0, None)
    }
}

proof fn lemma_slashes(k: nat, s: Seq<u16>, open: bool, n: nat, a: Seq<u16>)
    ensures
        arguments(slashes(k) + s, open, n, Some(a)) == arguments(s, open, n + k, Some(a)),
    decreases k,
{
    if k == 0 {
        assert(slashes(0) + s =~= s);
    } else {
        let line = slashes(k) + s;
        assert(line[0] == 92);
        assert(line.skip(1) =~= slashes((k - 1) as nat) + s);
        lemma_slashes((k - 1) as nat, s, open, n + 1, a);
    }
}

proof fn lemma_escaped(t: Seq<u16>, n: nat, rest: Seq<u16>, a: Seq<u16>)
    requires
        ends(rest),
    ensures
        arguments(escaped(t, n) + seq![34u16] + rest, true, 0, Some(a)) == arguments(
            rest,
            false,
            0,
            Some(a + slashes(n) + t),
        ),
    decreases t.len(),
{
    let close = seq![34u16] + rest;
    if t.len() == 0 {
        assert(escaped(t, n) + seq![34u16] + rest =~= slashes(2 * n) + close);
        lemma_slashes(2 * n, close, true, 0, a);
        assert(close.skip(1) =~= rest);
        assert((2 * n) / 2 == n && (2 * n) % 2 == 0);
        assert(a + slashes(n) + t =~= a + slashes(n));
    } else {
        let u = t.skip(1);
        if t[0] == 92 {
            lemma_escaped(u, n + 1, rest, a);
            assert(a + slashes(n + 1) + u =~= a + slashes(n) + t);
        } else if t[0] == 34 {
            let tail = escaped(u, 0) + seq![34u16] + rest;
            let from = seq![34u16] + tail;
            assert(escaped(t, n) + seq![34u16] + rest =~= slashes(2 * n + 1) + from);
            lemma_slashes(2 * n + 1, from, true, 0, a);
            assert(from.skip(1) =~= tail);
            assert((2 * n + 1) / 2 == n && (2 * n + 1) % 2 == 1);
            let b = a + slashes(n) + seq![34u16];
            lemma_escaped(u, 0, rest, b);
            assert(b + slashes(0) + u =~= a + slashes(n) + t);
        } else {
            let tail = escaped(u, 0) + seq![34u16] + rest;
            let from = seq![t[0]] + tail;
            assert(escaped(t, n) + seq![34u16] + rest =~= slashes(n) + from);
            lemma_slashes(n, from, true, 0, a);
            assert(from.skip(1) =~= tail);
            let b = a + slashes(n) + seq![t[0]];
            lemma_escaped(u, 0, rest, b);
            assert(b + slashes(0) + u =~= a + slashes(n) + t);
        }
    }
}

proof fn lemma_plain(t: Seq<u16>, n: nat, rest: Seq<u16>, a: Seq<u16>)
    requires
        ends(rest),
        forall|i: int| 0 <= i < t.len() ==> #[trigger] t[i] != 0x20 && t[i] != 0x09 && t[i] != 0x22,
    ensures
        arguments(t + rest, false, n, Some(a)) == seq![a + slashes(n) + t] + ended(rest),
    decreases t.len(),
{
    if t.len() == 0 {
        assert(t + rest =~= rest);
        assert(a + slashes(n) + t =~= a + slashes(n));
        assert(seq![a + slashes(n) + t] + Seq::<Seq<u16>>::empty() =~= seq![a + slashes(n)]);
    } else {
        let line = t + rest;
        let u = t.skip(1);
        assert(line[0] == t[0]);
        assert(line.skip(1) =~= u + rest);
        assert forall|i: int| 0 <= i < u.len() implies #[trigger] u[i] != 0x20 && u[i] != 0x09
            && u[i] != 0x22 by {
            assert(u[i] == t[i + 1]);
        }
        if t[0] == 92 {
            lemma_plain(u, n + 1, rest, a);
            assert(a + slashes(n + 1) + u =~= a + slashes(n) + t);
        } else {
            let b = a + slashes(n) + seq![t[0]];
            lemma_plain(u, 0, rest, b);
            assert(b + slashes(0) + u =~= a + slashes(n) + t);
        }
    }
}

proof fn lemma_quoted(a: Seq<u16>, rest: Seq<u16>)
    requires
        ends(rest),
    ensures
        arguments(quoted(a) + rest, false, 0, None) == seq![a] + ended(rest),
        quoted(a).len() > 0,
{
    let none = Seq::<u16>::empty();
    if needs_quotes(a) {
        let tail = escaped(a, 0) + seq![34u16] + rest;
        let line = quoted(a) + rest;
        assert(line =~= seq![34u16] + tail);
        assert(line.skip(1) =~= tail);
        assert(none + slashes(0) =~= none);
        lemma_escaped(a, 0, rest, none);
        assert(none + slashes(0) + a =~= a);
        lemma_plain(none, 0, rest, a);
        assert(none + rest =~= rest);
        assert(a + slashes(0) + none =~= a);
    } else {
        let line = a + rest;
        let u = a.skip(1);
        assert(a[0] != 0x20 && a[0] != 0x09 && a[0] != 0x22);
        assert(line.skip(1) =~= u + rest);
        assert forall|i: int| 0 <= i < u.len() implies #[trigger] u[i] != 0x20 && u[i] != 0x09
            && u[i] != 0x22 by {
            assert(u[i] == a[i + 1]);
        }
        if a[0] == 92 {
            lemma_plain(u, 1, rest, none);
            assert(none + slashes(1) + u =~= a);
        } else {
            let b = none + slashes(0) + seq![a[0]];
            lemma_plain(u, 0, rest, b);
            assert(b + slashes(0) + u =~= a);
        }
    }
}

proof fn lemma_line(args: Seq<Seq<u16>>, n: nat, rest: Seq<u16>)
    requires
        0 < n <= args.len(),
        ends(rest),
    ensures
        arguments(line_of(args, n) + rest, false, 0, None) == args.subrange(0, n as int) + ended(
            rest,
        ),
        line_of(args, n).len() > 0,
    decreases n,
{
    let a = args[n - 1];
    lemma_quoted(a, rest);
    if n == 1 {
        assert(line_of(args, 0).len() == 0);
        assert(args.subrange(0, 1) =~= seq![a]);
    } else {
        let m = (n - 1) as nat;
        let next = seq![32u16] + quoted(a) + rest;
        lemma_line(args, m, next);
        assert(line_of(args, n) + rest =~= line_of(args, m) + next);
        assert(next.skip(1) =~= quoted(a) + rest);
        assert(args.subrange(0, n as int) =~= args.subrange(0, m as int) + seq![a]);
        assert(args.subrange(0, m as int) + (seq![a] + ended(rest)) =~= args.subrange(0, n as int)
            + ended(rest));
    }
}

/// Arguments survive the command line: a process reads back what was put in.
pub proof fn law_arguments_survive(args: Seq<Seq<u16>>)
    ensures
        arguments(line_of(args, args.len()), false, 0, None) == args,
{
    let none = Seq::<u16>::empty();
    if args.len() == 0 {
        assert(args =~= Seq::<Seq<u16>>::empty());
    } else {
        lemma_line(args, args.len(), none);
        assert(line_of(args, args.len()) + none =~= line_of(args, args.len()));
        assert(args.subrange(0, args.len() as int) + Seq::<Seq<u16>>::empty() =~= args);
    }
}

fn push_slashes(out: &mut Vec<u16>, n: usize)
    ensures
        final(out)@ == old(out)@ + slashes(n as nat),
{
    let ghost had = out@;
    let mut i: usize = 0;
    assert(out@ =~= had + slashes(0));
    while i < n
        invariant
            i <= n,
            out@ == had + slashes(i as nat),
        decreases n - i,
    {
        out.push(92);
        i += 1;
        assert(out@ =~= had + slashes(i as nat));
    }
}

/// Quotes an argument so that it is read back as it is.
pub fn quote(argument: &[u16]) -> (r: Vec<u16>)
    ensures
        r@ == quoted(argument@),
{
    let mut i: usize = 0;
    let mut quotes: bool = argument.len() == 0;
    while i < argument.len()
        invariant
            i <= argument@.len(),
            quotes == (argument@.len() == 0 || exists|k: int|
                0 <= k < i && (#[trigger] argument@[k] == 0x20 || argument@[k] == 0x09
                    || argument@[k] == 0x22)),
        decreases argument@.len() - i,
    {
        let c: u16 = argument[i];
        if c == 0x20 || c == 0x09 || c == 0x22 {
            assert(argument@[i as int] == c);
            quotes = true;
        }
        i += 1;
    }
    let mut out: Vec<u16> = Vec::new();
    if !quotes {
        out.extend_from_slice(argument);
        assert(out@ =~= argument@);
        return out;
    }
    out.push(34);
    let mut held: usize = 0;
    let mut k: usize = 0;
    let ghost whole = seq![34u16] + escaped(argument@, 0);
    assert(argument@.skip(0) =~= argument@);
    assert(out@ + escaped(argument@.skip(0), 0) =~= whole);
    while k < argument.len()
        invariant
            k <= argument@.len(),
            held <= k,
            whole == seq![34u16] + escaped(argument@, 0),
            out@ + escaped(argument@.skip(k as int), held as nat) == whole,
        decreases argument@.len() - k,
    {
        let c: u16 = argument[k];
        let ghost t = argument@.skip(k as int);
        let ghost had = out@;
        let ghost n = held as nat;
        assert(t[0] == c);
        assert(t.skip(1) =~= argument@.skip(k + 1));
        if c == 92 {
            held += 1;
        } else {
            push_slashes(&mut out, held);
            if c == 34 {
                push_slashes(&mut out, held);
                out.push(92);
                assert(out@ =~= had + slashes(2 * n + 1));
            }
            out.push(c);
            held = 0;
            assert(out@ + escaped(t.skip(1), 0) =~= had + escaped(t, n));
        }
        k += 1;
    }
    assert(argument@.skip(k as int).len() == 0);
    let ghost had = out@;
    push_slashes(&mut out, held);
    push_slashes(&mut out, held);
    assert(out@ =~= had + slashes(2 * held as nat));
    out.push(34);
    assert(out@ =~= whole + seq![34u16]);
    out
}

/// Adds an argument to a command line.
pub fn push_argument(line: &mut Vec<u16>, argument: &[u16])
    ensures
        final(line)@ == with_argument(old(line)@, argument@),
{
    let ghost had = line@;
    if line.len() > 0 {
        line.push(32);
    }
    let mut q: Vec<u16> = quote(argument);
    line.append(&mut q);
    assert(line@ =~= with_argument(had, argument@));
}

/// The hidden flags of the second process.
pub const STDOUT_FLAG: &'static str = "--elevation-stdout";

pub const STDERR_FLAG: &'static str = "--elevation-stderr";

pub const CWD_FLAG: &'static str = "--elevation-cwd";

pub const PARENT_FLAG: &'static str = "--elevation-parent";

pub const FALLBACK_FLAG: &'static str = "--elevation-fallback";

/// Everything that the second process needs to give its output back.
#[derive(Debug)]
pub struct RelaySpec {
    /// The pipe of its output.
    pub stdout: Vec<u16>,
    /// The pipe of its diagnostics.
    pub stderr: Vec<u16>,
    /// The directory that it runs in.
    pub cwd: Vec<u16>,
    /// The process that it does not outlive.
    pub parent: u32,
    /// Where it leaves its output if the pipes cannot be opened.
    pub fallback: Vec<u16>,
}

pub open spec fn wide_views(v: Seq<Vec<u16>>) -> Seq<Seq<u16>> {
    v.map_values(|a: Vec<u16>| a@)
}

/// The first `n` arguments without the wish for administrator rights.
pub open spec fn kept(args: Seq<Seq<u16>>, n: nat) -> Seq<Seq<u16>>
    decreases n,
{
    if n == 0 {
        Seq::empty()
    } else if args[n - 1] == text::utf16_of("--elevate"@) {
        kept(args, (n - 1) as nat)
    } else {
        kept(args, (n - 1) as nat).push(args[n - 1])
    }
}

/// The arguments of the second process: those of the first without the wish for
/// administrator rights, and where its output goes.
pub open spec fn child_arguments(args: Seq<Seq<u16>>, relay: RelaySpec) -> Seq<Seq<u16>> {
    kept(args, args.len()) + seq![
        text::utf16_of(STDOUT_FLAG@),
        relay.stdout@,
        text::utf16_of(STDERR_FLAG@),
        relay.stderr@,
        text::utf16_of(CWD_FLAG@),
        relay.cwd@,
        text::utf16_of(PARENT_FLAG@),
        text::utf16_of(text::decimal_of(relay.parent as nat)),
        text::utf16_of(FALLBACK_FLAG@),
        relay.fallback@,
    ]
}

proof fn lemma_line_prefix(a: Seq<Seq<u16>>, b: Seq<Seq<u16>>, n: nat)
    requires
        n <= a.len(),
        n <= b.len(),
        forall|i: int| 0 <= i < n ==> a[i] == b[i],
    ensures
        line_of(a, n) == line_of(b, n),
    decreases n,
{
    if n > 0 {
        lemma_line_prefix(a, b, (n - 1) as nat);
    }
}

/// The command line of the second process, ended by a zero.
pub fn child_command_line(args: &Vec<Vec<u16>>, relay: &RelaySpec) -> (r: Vec<u16>)
    ensures
        r@ == line_of(
            child_arguments(wide_views(args@), *relay),
            child_arguments(wide_views(args@), *relay).len(),
        ).push(0),
{
    let wish: Vec<u16> = text::utf16("--elevate");
    let ghost views = wide_views(args@);
    let mut line: Vec<u16> = Vec::new();
    let mut i: usize = 0;
    while i < args.len()
        invariant
            i <= args@.len(),
            views == wide_views(args@),
            wish@ == text::utf16_of("--elevate"@),
            line@ == line_of(kept(views, i as nat), kept(views, i as nat).len()),
        decreases args@.len() - i,
    {
        assert(views[i as int] == args@[i as int]@);
        if !text::same_units(&args[i], &wish) {
            push_argument(&mut line, &args[i]);
            proof {
                let before = kept(views, i as nat);
                lemma_line_prefix(before, before.push(views[i as int]), before.len());
            }
        }
        i += 1;
    }
    let ghost all = child_arguments(views, *relay);
    let ghost n = kept(views, views.len()).len();
    proof {
        lemma_line_prefix(kept(views, views.len()), all, n);
        assert(all[n as int] == text::utf16_of(STDOUT_FLAG@));
        assert(all[n as int + 1] == relay.stdout@);
        assert(all[n as int + 2] == text::utf16_of(STDERR_FLAG@));
        assert(all[n as int + 3] == relay.stderr@);
        assert(all[n as int + 4] == text::utf16_of(CWD_FLAG@));
        assert(all[n as int + 5] == relay.cwd@);
        assert(all[n as int + 6] == text::utf16_of(PARENT_FLAG@));
        assert(all[n as int + 7] == text::utf16_of(text::decimal_of(relay.parent as nat)));
        assert(all[n as int + 8] == text::utf16_of(FALLBACK_FLAG@));
        assert(all[n as int + 9] == relay.fallback@);
        reveal_with_fuel(line_of, 11);
    }
    push_argument(&mut line, &text::utf16(STDOUT_FLAG));
    push_argument(&mut line, &relay.stdout);
    push_argument(&mut line, &text::utf16(STDERR_FLAG));
    push_argument(&mut line, &relay.stderr);
    push_argument(&mut line, &text::utf16(CWD_FLAG));
    push_argument(&mut line, &relay.cwd);
    push_argument(&mut line, &text::utf16(PARENT_FLAG));
    push_argument(&mut line, &text::utf16(&text::decimal(relay.parent as u64)));
    push_argument(&mut line, &text::utf16(FALLBACK_FLAG));
    push_argument(&mut line, &relay.fallback);
    line.push(0);
    line
}

/// At `n`, after what is text, a character begins that the end of the bytes cuts off: with
/// some more bytes it would be one.
pub open spec fn cut_at(b: Seq<u8>, n: usize) -> bool {
    let rest = b.subrange(n as int, b.len() as int);
    &&& n < b.len()
    &&& vstd::utf8::valid_utf8(b.subrange(0, n as int))
    &&& exists|more: Seq<u8>|
        more.len() > 0 && #[trigger] vstd::utf8::valid_first_scalar(rest + more)
            && vstd::utf8::length_of_first_scalar(rest + more) == rest.len() + more.len()
}

/// Where an unfinished character at the end of some bytes begins, if there is one.
pub open spec fn unfinished_from(b: Seq<u8>) -> Option<usize> {
    if exists|n: usize| cut_at(b, n) {
        Some(choose|n: usize| cut_at(b, n))
    } else {
        None
    }
}

/// `std::str::from_utf8`, with `error_len` and `valid_up_to` of its error: the place where
/// a character begins that the end of the bytes cuts off. What comes before it is text, and
/// it is one to three bytes long. Bytes that are all text have no such place, and where
/// something else than an unfinished character is no text, there is none either.
#[verifier::external_body]
fn cut_off(b: &[u8]) -> (r: Option<usize>)
    ensures
        r == unfinished_from(b@),
        r matches Some(n) ==> n < b@.len() <= n + 3 && vstd::utf8::valid_utf8(
            b@.subrange(0, n as int),
        ),
        vstd::utf8::valid_utf8(b@) ==> r is None,
{
    match std::str::from_utf8(b) {
        Ok(_) => None,
        Err(e) => match e.error_len() {
            None => Some(e.valid_up_to()),
            Some(_) => None,
        },
    }
}

/// How many of `len` bytes can be written when an unfinished character begins at `from`.
pub open spec fn writable(len: nat, from: Option<usize>) -> nat {
    match from {
        None => len,
        Some(n) => n as nat,
    }
}

/// How many of so many bytes can be written now, given where an unfinished character begins.
pub fn ready(len: usize, from: Option<usize>) -> (r: usize)
    ensures
        r == writable(len as nat, from),
{
    match from {
        None => len,
        Some(n) => n,
    }
}

/// How much can be written now: everything but a character that is cut off at the end.
/// Bytes that are no text at all are not held back.
pub fn writable_prefix(carry: &[u8]) -> (r: usize)
    ensures
        r == writable(carry@.len(), unfinished_from(carry@)),
        r <= carry@.len() <= r + 3,
        vstd::utf8::valid_utf8(carry@) ==> r == carry@.len(),
{
    ready(carry.len(), cut_off(carry))
}

/// A stream whose writes never end within a character.
#[derive(Debug)]
pub struct StreamWriter {
    carry: Vec<u8>,
}

impl StreamWriter {
    /// The bytes that are held back.
    pub closed spec fn held(&self) -> Seq<u8> {
        self.carry@
    }

    pub fn new() -> (r: Self)
        ensures
            r.held() == Seq::<u8>::empty(),
    {
        StreamWriter { carry: Vec::new() }
    }

    /// Takes bytes, and gives those that are to be written now. Nothing is lost, and at most
    /// three bytes are held back.
    pub fn write(&mut self, bytes: &[u8]) -> (r: Vec<u8>)
        ensures
            ({
                let all = old(self).held() + bytes@;
                let n = writable(all.len(), unfinished_from(all)) as int;
                if bytes@.len() == 0 {
                    r@ == Seq::<u8>::empty() && final(self).held() == old(self).held()
                } else {
                    &&& r@ == all.subrange(0, n)
                    &&& final(self).held() == all.subrange(n, all.len() as int)
                    &&& final(self).held().len() <= 3
                }
            }),
            r@ + final(self).held() == old(self).held() + bytes@,
    {
        let ghost before = self.carry@;
        if bytes.len() == 0 {
            let r: Vec<u8> = Vec::new();
            assert(r@ + before =~= before + bytes@);
            return r;
        }
        self.carry.extend_from_slice(bytes);
        assert(self.carry@ =~= before + bytes@);
        let ghost all = self.carry@;
        let n: usize = writable_prefix(&self.carry);
        let total: usize = self.carry.len();
        let mut out: Vec<u8> = Vec::new();
        out.extend_from_slice(&self.carry.as_slice()[0..n]);
        let mut rest: Vec<u8> = Vec::new();
        rest.extend_from_slice(&self.carry.as_slice()[n..total]);
        self.carry = rest;
        assert(out@ =~= all.subrange(0, n as int));
        assert(self.carry@ =~= all.subrange(n as int, all.len() as int));
        assert(out@ + self.carry@ =~= all);
        out
    }

    /// Gives what is still held back.
    pub fn finish(&mut self) -> (r: Vec<u8>)
        ensures
            r@ == old(self).held(),
            final(self).held() == Seq::<u8>::empty(),
    {
        let mut r: Vec<u8> = Vec::new();
        r.append(&mut self.carry);
        assert(r@ =~= old(self).held());
        r
    }
}

/// The end of an operation is not known yet.
pub const IO_PENDING: u32 = 997;

pub const IO_INCOMPLETE: u32 = 996;

pub const OPERATION_ABORTED: u32 = 995;

pub const PIPE_CONNECTED: u32 = 535;

pub const BROKEN_PIPE: u32 = 109;

pub const HANDLE_EOF: u32 = 38;

/// How far a pipe has come.
#[derive(Clone, Copy, Debug, PartialEq, Eq, Structural)]
pub enum Phase {
    Connecting,
    Reading,
    Done,
}

/// The state of a pipe: its phase, whether an operation is under way, and what went wrong.
#[derive(Clone, Copy, Debug, PartialEq, Eq, Structural)]
pub struct PipeState {
    pub phase: Phase,
    pub pending: bool,
    pub failure: Option<u32>,
}

/// What is to be done with a pipe.
#[derive(Clone, Copy, Debug, PartialEq, Eq, Structural)]
pub enum PipeStep {
    Nothing,
    BeginConnect,
    FinishConnect,
    BeginRead,
    FinishRead,
}

/// The answer to an operation: so many bytes, or an error.
#[derive(Clone, Copy, Debug, PartialEq, Eq, Structural)]
pub enum PipeAnswer {
    Read(u32),
    Failed(u32),
}

/// What an answer leads to: whether the pipe can go on at once, and how many bytes of its
/// buffer are to be handed on.
#[derive(Clone, Copy, Debug, PartialEq, Eq, Structural)]
pub struct PipeProgress {
    pub state: PipeState,
    pub goes_on: bool,
    pub deliver: u32,
}

/// What is to be done with a pipe in this state.
pub open spec fn step_of(s: PipeState) -> PipeStep {
    match (s.phase, s.pending) {
        (Phase::Done, _) => PipeStep::Nothing,
        (Phase::Connecting, true) => PipeStep::FinishConnect,
        (Phase::Connecting, false) => PipeStep::BeginConnect,
        (Phase::Reading, true) => PipeStep::FinishRead,
        (Phase::Reading, false) => PipeStep::BeginRead,
    }
}

pub open spec fn connected(s: PipeState) -> PipeState {
    PipeState { phase: Phase::Reading, pending: false, ..s }
}

pub open spec fn done(s: PipeState) -> PipeState {
    PipeState { phase: Phase::Done, pending: false, ..s }
}

pub open spec fn failed(s: PipeState, code: u32) -> PipeState {
    PipeState { phase: Phase::Done, pending: false, failure: Some(code) }
}

/// The state after an answer to the step that the state asked for.
pub open spec fn answered(s: PipeState, a: PipeAnswer) -> PipeProgress {
    let waiting = PipeState { pending: true, ..s };
    match (step_of(s), a) {
        (PipeStep::Nothing, _) => PipeProgress { state: s, goes_on: false, deliver: 0 },
        (PipeStep::BeginConnect, PipeAnswer::Read(_)) | (
            PipeStep::FinishConnect,
            PipeAnswer::Read(_),
        ) => PipeProgress { state: connected(s), goes_on: true, deliver: 0 },
        (PipeStep::BeginConnect, PipeAnswer::Failed(code)) => PipeProgress {
            state: if code == IO_PENDING {
                waiting
            } else if code == PIPE_CONNECTED {
                connected(s)
            } else {
                failed(s, code)
            },
            goes_on: true,
            deliver: 0,
        },
        (PipeStep::FinishConnect, PipeAnswer::Failed(code)) => PipeProgress {
            state: if code == IO_INCOMPLETE {
                s
            } else if code == PIPE_CONNECTED {
                connected(s)
            } else {
                failed(s, code)
            },
            goes_on: code != IO_INCOMPLETE,
            deliver: 0,
        },
        (PipeStep::BeginRead, PipeAnswer::Read(n)) | (PipeStep::FinishRead, PipeAnswer::Read(n)) => {
            PipeProgress {
                state: if n == 0 {
                    done(s)
                } else {
                    PipeState { pending: false, ..s }
                },
                goes_on: true,
                deliver: n,
            }
        },
        (PipeStep::BeginRead, PipeAnswer::Failed(code)) => PipeProgress {
            state: if code == IO_PENDING {
                waiting
            } else if code == BROKEN_PIPE || code == HANDLE_EOF {
                done(s)
            } else {
                failed(s, code)
            },
            goes_on: true,
            deliver: 0,
        },
        (PipeStep::FinishRead, PipeAnswer::Failed(code)) => PipeProgress {
            state: if code == IO_INCOMPLETE {
                s
            } else if code == BROKEN_PIPE || code == HANDLE_EOF || code == OPERATION_ABORTED {
                done(s)
            } else {
                failed(s, code)
            },
            goes_on: code != IO_INCOMPLETE,
            deliver: 0,
        },
    }
}

impl PipeState {
    pub fn new() -> (r: Self)
        ensures
            r == (PipeState { phase: Phase::Connecting, pending: false, failure: None }),
    {
        PipeState { phase: Phase::Connecting, pending: false, failure: None }
    }

    /// What is to be done next.
    pub fn step(self) -> (r: PipeStep)
        ensures
            r == step_of(self),
    {
        match (self.phase, self.pending) {
            (Phase::Done, _) => PipeStep::Nothing,
            (Phase::Connecting, true) => PipeStep::FinishConnect,
            (Phase::Connecting, false) => PipeStep::BeginConnect,
            (Phase::Reading, true) => PipeStep::FinishRead,
            (Phase::Reading, false) => PipeStep::BeginRead,
        }
    }

    fn to(self, phase: Phase, failure: Option<u32>) -> (r: Self)
        ensures
            r == (PipeState { phase, pending: false, failure }),
    {
        PipeState { phase, pending: false, failure }
    }

    /// Takes the answer to the step that was asked for.
    pub fn answer(self, a: PipeAnswer) -> (r: PipeProgress)
        ensures
            r == answered(self, a),
    {
        let step: PipeStep = self.step();
        let begins: bool = step == PipeStep::BeginConnect || step == PipeStep::BeginRead;
        let connects: bool = step == PipeStep::BeginConnect || step == PipeStep::FinishConnect;
        if step == PipeStep::Nothing {
            return PipeProgress { state: self, goes_on: false, deliver: 0 };
        }
        match a {
            PipeAnswer::Read(n) => if connects {
                PipeProgress {
                    state: self.to(Phase::Reading, self.failure),
                    goes_on: true,
                    deliver: 0,
                }
            } else if n == 0 {
                PipeProgress { state: self.to(Phase::Done, self.failure), goes_on: true, deliver: 0 }
            } else {
                PipeProgress { state: self.to(self.phase, self.failure), goes_on: true, deliver: n }
            },
            PipeAnswer::Failed(code) => {
                let state: PipeState = if begins && code == IO_PENDING {
                    PipeState { phase: self.phase, pending: true, failure: self.failure }
                } else if !begins && code == IO_INCOMPLETE {
                    self
                } else if connects && code == PIPE_CONNECTED {
                    self.to(Phase::Reading, self.failure)
                } else if !connects && (code == BROKEN_PIPE || code == HANDLE_EOF || (!begins && code
                    == OPERATION_ABORTED)) {
                    self.to(Phase::Done, self.failure)
                } else {
                    self.to(Phase::Done, Some(code))
                };
                PipeProgress { state, goes_on: begins || code != IO_INCOMPLETE, deliver: 0 }
            },
        }
    }
}

/// A pipe that is done stays done, and its failure stays known.
pub proof fn law_done_is_final(s: PipeState, a: PipeAnswer)
    ensures
        s.phase == Phase::Done ==> answered(s, a).state == s,
        s.failure is Some && s.phase == Phase::Done ==> answered(s, a).state.failure == s.failure,
        answered(s, a).state.phase == Phase::Connecting ==> s.phase == Phase::Connecting,
{
}

/// What the caller does next: it stops once the process has ended and nothing is under way,
/// else it waits, without limit as long as the process runs.
pub fn keeps_waiting(exited: bool, out: PipeState, err: PipeState) -> (r: bool)
    ensures
        r == !(exited && !out.pending && !err.pending),
{
    !(exited && !out.pending && !err.pending)
}

/// The names of the pipes that never connected, with what went wrong.
pub open spec fn unconnected_text(name: Seq<char>, s: PipeState) -> Seq<Seq<char>> {
    if s.phase != Phase::Connecting {
        Seq::empty()
    } else {
        match s.failure {
            Some(code) => seq![
                name + "（管道错误 "@ + text::decimal_of(code as nat) + "）"@,
            ],
            None => seq![name],
        }
    }
}

fn add_unconnected(out: &mut Vec<String>, name: &str, s: PipeState)
    ensures
        text::views(final(out)@) == text::views(old(out)@) + unconnected_text(name@, s),
{
    let ghost had = out@;
    if s.phase != Phase::Connecting {
        assert(text::views(had) + Seq::<Seq<char>>::empty() =~= text::views(had));
        return;
    }
    let line: String = match s.failure {
        Some(code) => text::glue(
            &text::glue(&text::glue(name, "（管道错误 "), &text::decimal(code as u64)),
            "）",
        ),
        None => name.to_owned(),
    };
    out.push(line);
    assert(text::views(out@) =~= text::views(had).push(line@));
    assert(text::views(out@) =~= text::views(had) + unconnected_text(name@, s));
}

/// The pipes that never connected.
pub fn unconnected(stdout: &str, out: PipeState, stderr: &str, err: PipeState) -> (r: Vec<String>)
    ensures
        text::views(r@) == unconnected_text(stdout@, out) + unconnected_text(stderr@, err),
{
    let mut r: Vec<String> = Vec::new();
    assert(text::views(r@) =~= Seq::<Seq<char>>::empty());
    add_unconnected(&mut r, stdout, out);
    assert(text::views(r@) =~= unconnected_text(stdout@, out));
    add_unconnected(&mut r, stderr, err);
    r
}

/// The exit code that the caller takes over. Success that nobody could see is none.
pub fn adopted_code(code: u32, all_connected: bool, replayed: usize) -> (r: u32)
    ensures
        r == (if !all_connected && code == 0 && replayed == 0 {
            1
        } else {
            code
        }),
        code != 0 ==> r == code,
        r == 0 ==> all_connected || replayed > 0,
{
    if !all_connected && code == 0 && replayed == 0 {
        1
    } else {
        code
    }
}

/// Volumes are read raw only with an elevated token, or with a high one of an administrator
/// or of the system; without a token, never.
pub proof fn law_only_the_privileged_read_volumes(token: Option<Token>)
    ensures
        token is None ==> !reads_volumes(token),
        token matches Some(t) ==> (reads_volumes(token) <==> t.elevated == Some(true) || (
        t.integrity is Some && t.integrity->0 >= 0x3000 && (t.administrators || t.local_system))),
{
}

proof fn lemma_kept(args: Seq<Seq<u16>>, n: nat, a: Seq<u16>)
    requires
        n <= args.len(),
    ensures
        kept(args, n).contains(a) <==> a != text::utf16_of("--elevate"@) && exists|i: int|
            0 <= i < n && #[trigger] args[i] == a,
    decreases n,
{
    if n > 0 {
        let m = (n - 1) as nat;
        lemma_kept(args, m, a);
        let before = kept(args, m);
        let now = kept(args, n);
        if exists|i: int| 0 <= i < n && #[trigger] args[i] == a {
            let i = choose|i: int| 0 <= i < n && #[trigger] args[i] == a;
            if a != text::utf16_of("--elevate"@) {
                if i < m {
                    assert(0 <= i < m && args[i] == a);
                    let k = before.index_of(a);
                    assert(now[k] == a);
                } else {
                    assert(now[before.len() as int] == a);
                }
            }
        }
        if now.contains(a) {
            let k = now.index_of(a);
            if k < before.len() {
                assert(before[k] == a);
                let i = choose|i: int| 0 <= i < m && #[trigger] args[i] == a;
                assert(args[i] == a);
            } else {
                assert(args[n - 1] == a);
            }
        }
    }
}

/// The elevated process gets every argument but the wish for elevation, and is told where to
/// send its output and which process it must not outlive.
pub proof fn law_the_elevated_process_gets_the_same_command(
    args: Seq<Seq<u16>>,
    relay: RelaySpec,
    i: int,
)
    requires
        0 <= i < args.len(),
    ensures
        ({
            let c = child_arguments(args, relay);
            let n = c.len();
            &&& args[i] != text::utf16_of("--elevate"@) ==> c.contains(args[i])
            &&& n >= 10
            &&& c[n - 9] == relay.stdout@ && c[n - 7] == relay.stderr@ && c[n - 5] == relay.cwd@
            &&& c[n - 3] == text::utf16_of(text::decimal_of(relay.parent as nat))
            &&& c[n - 1] == relay.fallback@
            &&& c[n - 10] == text::utf16_of("--elevation-stdout"@)
            &&& c[n - 8] == text::utf16_of("--elevation-stderr"@)
            &&& c[n - 6] == text::utf16_of("--elevation-cwd"@)
            &&& c[n - 4] == text::utf16_of("--elevation-parent"@)
            &&& c[n - 2] == text::utf16_of("--elevation-fallback"@)
        }),
{
    let c = child_arguments(args, relay);
    let k = kept(args, args.len());
    if args[i] != text::utf16_of("--elevate"@) {
        lemma_kept(args, args.len(), args[i]);
        let at = k.index_of(args[i]);
        assert(c[at] == args[i]);
    }
}

/// What is read from a pipe is passed on whole; a pipe that ends, or has no more, is done
/// without a failure; and a code that says neither that nor to wait is a failure.
pub proof fn law_pipes_deliver_what_they_read(s: PipeState, a: PipeAnswer)
    ensures
        s.phase == Phase::Reading && a is Read ==> answered(s, a).deliver == a->Read_0 && answered(
            s,
            a,
        ).state.failure == s.failure && (answered(s, a).state.phase == Phase::Done <==> a->Read_0
            == 0),
        s.phase == Phase::Reading && a is Failed ==> answered(s, a).deliver == 0 && ((a->Failed_0
            == 109 || a->Failed_0 == 38) ==> answered(s, a).state.phase == Phase::Done && answered(
            s,
            a,
        ).state.failure == s.failure),
        s.phase == Phase::Reading && s.pending && a == PipeAnswer::Failed(996) ==> answered(
            s,
            a,
        ).state == s && !answered(s, a).goes_on,
        s.phase == Phase::Reading && !s.pending && a == PipeAnswer::Failed(997) ==> answered(
            s,
            a,
        ).state == (PipeState { pending: true, ..s }),
        s.phase == Phase::Connecting && (a is Read || a == PipeAnswer::Failed(535)) ==> answered(
            s,
            a,
        ).state.phase == Phase::Reading && answered(s, a).deliver == 0,
        s.phase != Phase::Done && a is Failed && a->Failed_0 != 997 && a->Failed_0 != 996
            && a->Failed_0 != 995 && a->Failed_0 != 535 && a->Failed_0 != 109 && a->Failed_0 != 38
            ==> answered(s, a).state.failure == Some(a->Failed_0) && answered(s, a).state.phase
            == Phase::Done,
{
}

} // verus!
