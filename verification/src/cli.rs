//! The command line, and what a watch does with an event.
use crate::text::same_text;
use vstd::prelude::*;

verus! {

/// A command with its document and file.
#[derive(Debug, PartialEq, Eq)]
pub enum Command {
    Pull { doc: String, file: String, force: bool },
    Sync { doc: String, file: String },
    Push { doc: String, file: String, force: bool },
    Watch { doc: String, file: String },
}

/// What a [`Command`] says.
#[verifier::ext_equal]
pub enum CommandV {
    Pull { doc: Seq<char>, file: Seq<char>, force: bool },
    Sync { doc: Seq<char>, file: Seq<char> },
    Push { doc: Seq<char>, file: Seq<char>, force: bool },
    Watch { doc: Seq<char>, file: Seq<char> },
}

impl View for Command {
    type V = CommandV;

    open spec fn view(&self) -> CommandV {
        match self {
            Command::Pull { doc, file, force } => CommandV::Pull {
                doc: doc@,
                file: file@,
                force: *force,
            },
            Command::Sync { doc, file } => CommandV::Sync { doc: doc@, file: file@ },
            Command::Push { doc, file, force } => CommandV::Push {
                doc: doc@,
                file: file@,
                force: *force,
            },
            Command::Watch { doc, file } => CommandV::Watch { doc: doc@, file: file@ },
        }
    }
}

/// The argument is the force flag.
pub open spec fn force_flag(a: Seq<char>) -> bool {
    a == "--force"@ || a == "-f"@
}

/// The arguments as texts.
pub open spec fn arg_views(args: Seq<String>) -> Seq<Seq<char>> {
    Seq::new(args.len(), |i: int| args[i]@)
}

/// The arguments without the force flags.
pub open spec fn plain_args(args: Seq<Seq<char>>) -> Seq<Seq<char>>
    decreases args.len(),
{
    if args.len() == 0 {
        args
    } else if force_flag(args.last()) {
        plain_args(args.drop_last())
    } else {
        plain_args(args.drop_last()).push(args.last())
    }
}

/// One of the arguments is the force flag.
pub open spec fn forced(args: Seq<Seq<char>>) -> bool {
    exists|i: int| 0 <= i < args.len() && force_flag(#[trigger] args[i])
}

/// The command that the arguments give, the first of which is the program's name. The
/// force flag may stand anywhere.
pub open spec fn command_of(args: Seq<Seq<char>>) -> Option<CommandV> {
    let a = plain_args(args);
    let force = forced(args);
    if a.len() != 4 {
        None
    } else if a[1] == "pull"@ {
        Some(CommandV::Pull { doc: a[2], file: a[3], force })
    } else if a[1] == "sync"@ {
        Some(CommandV::Sync { doc: a[2], file: a[3] })
    } else if a[1] == "push"@ {
        Some(CommandV::Push { doc: a[2], file: a[3], force })
    } else if a[1] == "watch"@ {
        Some(CommandV::Watch { doc: a[2], file: a[3] })
    } else {
        None
    }
}

/// Parse the arguments, the first of which is the program's name. `None` where they name
/// no command with a document and a file.
pub fn parse_args(args: &[String]) -> (r: Option<Command>)
    ensures
        match r {
            Some(c) => command_of(arg_views(args@)) == Some(c@),
            None => command_of(arg_views(args@)) is None,
        },
{
    let ghost all = arg_views(args@);
    let n: usize = args.len();
    let mut force = false;
    let mut plain: Vec<String> = Vec::new();
    assert(all.take(0) =~= Seq::<Seq<char>>::empty());
    assert(arg_views(plain@) =~= plain_args(all.take(0)));
    for i in 0..n
        invariant
            n == args@.len(),
            all == arg_views(args@),
            force == forced(all.take(i as int)),
            arg_views(plain@) == plain_args(all.take(i as int)),
    {
        let ghost before = arg_views(plain@);
        let ghost was = all.take(i as int);
        let ghost now = all.take(i + 1);
        let a = args[i].as_str();
        assert(now.drop_last() =~= was);
        assert(now.last() == a@);
        let flag = same_text(a, "--force") || same_text(a, "-f");
        proof {
            if forced(was) {
                let k = choose|k: int| 0 <= k < was.len() && force_flag(#[trigger] was[k]);
                assert(force_flag(now[k]));
            }
            if flag {
                assert(force_flag(now[i as int]));
            }
            if forced(now) {
                let k = choose|k: int| 0 <= k < now.len() && force_flag(#[trigger] now[k]);
                if k < i {
                    assert(force_flag(was[k]));
                }
            }
        }
        if flag {
            force = true;
        } else {
            plain.push(args[i].clone());
            assert(arg_views(plain@) =~= before.push(a@));
        }
    }
    assert(all.take(n as int) =~= all);
    assert(arg_views(plain@).len() == plain@.len());
    if plain.len() != 4 {
        return None;
    }
    assert(forall|i: int| 0 <= i < 4 ==> arg_views(plain@)[i] == #[trigger] plain@[i]@);
    let doc = plain[2].clone();
    let file = plain[3].clone();
    let name = plain[1].as_str();
    if same_text(name, "pull") {
        Some(Command::Pull { doc, file, force })
    } else if same_text(name, "sync") {
        Some(Command::Sync { doc, file })
    } else if same_text(name, "push") {
        Some(Command::Push { doc, file, force })
    } else if same_text(name, "watch") {
        Some(Command::Watch { doc, file })
    } else {
        None
    }
}

/// A command without a force flag is read by its name; the program's own name does not
/// matter.
pub proof fn law_commands(program: Seq<char>, doc: Seq<char>, file: Seq<char>)
    requires
        !force_flag(program),
        !force_flag(doc),
        !force_flag(file),
    ensures
        command_of(seq![program, "pull"@, doc, file]) == Some(
            CommandV::Pull { doc, file, force: false },
        ),
        command_of(seq![program, "sync"@, doc, file]) == Some(CommandV::Sync { doc, file }),
        command_of(seq![program, "push"@, doc, file]) == Some(
            CommandV::Push { doc, file, force: false },
        ),
        command_of(seq![program, "watch"@, doc, file]) == Some(CommandV::Watch { doc, file }),
{
    reveal_strlit("pull");
    reveal_strlit("sync");
    reveal_strlit("push");
    reveal_strlit("watch");
    reveal_strlit("--force");
    reveal_strlit("-f");
    assert("pull"@[0] == 'p' && "pull"@[3] == 'l' && "push"@[3] == 'h' && "sync"@[0] == 's');
    assert("pull"@.len() == 4 && "push"@.len() == 4 && "sync"@.len() == 4 && "watch"@.len() == 5);
    lemma_unforced(seq![program, "pull"@, doc, file]);
    lemma_unforced(seq![program, "sync"@, doc, file]);
    lemma_unforced(seq![program, "push"@, doc, file]);
    lemma_unforced(seq![program, "watch"@, doc, file]);
}

/// Other names, and more or fewer arguments, are no command.
pub proof fn law_no_command(args: Seq<Seq<char>>)
    requires
        forall|i: int| 0 <= i < args.len() ==> !force_flag(#[trigger] args[i]),
        args.len() != 4 || (args[1] != "pull"@ && args[1] != "sync"@ && args[1] != "push"@
            && args[1] != "watch"@),
    ensures
        command_of(args) is None,
{
    lemma_unforced(args);
}

/// Arguments without a force flag stay as they are.
proof fn lemma_unforced(args: Seq<Seq<char>>)
    requires
        forall|i: int| 0 <= i < args.len() ==> !force_flag(#[trigger] args[i]),
    ensures
        plain_args(args) == args,
        !forced(args),
    decreases args.len(),
{
    if args.len() > 0 {
        let init = args.drop_last();
        assert forall|i: int| 0 <= i < init.len() implies !force_flag(#[trigger] init[i]) by {
            assert(init[i] == args[i]);
        }
        lemma_unforced(init);
        assert(!force_flag(args[args.len() - 1]));
        assert(init.push(args.last()) =~= args);
    }
}

/// The command with force, where it can have it.
pub open spec fn with_force(c: CommandV) -> CommandV {
    match c {
        CommandV::Pull { doc, file, .. } => CommandV::Pull { doc, file, force: true },
        CommandV::Push { doc, file, .. } => CommandV::Push { doc, file, force: true },
        _ => c,
    }
}

/// The force flag, long or short, may stand anywhere, and gives the command force.
pub proof fn law_force_anywhere(a: Seq<Seq<char>>, b: Seq<Seq<char>>, flag: Seq<char>)
    requires
        flag == "--force"@ || flag == "-f"@,
    ensures
        command_of(a + seq![flag] + b) == match command_of(a + b) {
            Some(c) => Some(with_force(c)),
            None => None,
        },
{
    let all = a + seq![flag] + b;
    lemma_plain_add(a + seq![flag], b);
    lemma_plain_add(a, seq![flag]);
    lemma_plain_add(a, b);
    let one = seq![flag];
    assert(one.drop_last() =~= Seq::<Seq<char>>::empty());
    assert(one.last() == flag && force_flag(one.last()));
    reveal_with_fuel(plain_args, 2);
    assert(plain_args(one) =~= Seq::<Seq<char>>::empty());
    assert(plain_args(a) + plain_args(one) =~= plain_args(a));
    assert(force_flag(all[a.len() as int]));
    assert(forced(all));
}

proof fn lemma_plain_add(a: Seq<Seq<char>>, b: Seq<Seq<char>>)
    ensures
        plain_args(a + b) == plain_args(a) + plain_args(b),
    decreases b.len(),
{
    if b.len() == 0 {
        assert(a + b =~= a);
        assert(plain_args(a) + plain_args(b) =~= plain_args(a));
    } else {
        assert((a + b).drop_last() =~= a + b.drop_last());
        lemma_plain_add(a, b.drop_last());
        assert(plain_args(a + b) =~= plain_args(a) + plain_args(b));
    }
}

/// What a watch waits for.
#[derive(Debug, Clone, Copy, PartialEq, Eq, Structural)]
pub enum WatchEvent {
    /// Something changed in the directory of the file; whether it was the file.
    Changed { target: bool },
    /// Nothing changed for the polling interval.
    Timeout,
    /// The watcher failed once.
    Hiccup,
    /// The watcher is gone.
    Disconnected,
}

/// What a watch does.
#[derive(Debug, Clone, Copy, PartialEq, Eq, Structural)]
pub enum WatchAction {
    /// Wait on.
    Wait,
    /// Let the events settle, then reconcile.
    SettleAndReconcile,
    /// Reconcile.
    Reconcile,
    /// Stop.
    Stop,
}

/// A local save and a passed polling interval both lead to a reconciliation.
pub fn on_watch_event(e: WatchEvent) -> (r: WatchAction)
    ensures
        r == match e {
            WatchEvent::Changed { target } => if target {
                WatchAction::SettleAndReconcile
            } else {
                WatchAction::Wait
            },
            WatchEvent::Timeout => WatchAction::Reconcile,
            WatchEvent::Hiccup => WatchAction::Wait,
            WatchEvent::Disconnected => WatchAction::Stop,
        },
        // A save of the file and a passed interval lead to a reconciliation, and nothing else
        // does; a save is let settle first.
        r is Reconcile || r is SettleAndReconcile <==> e is Timeout || e
            == (WatchEvent::Changed { target: true }),
        r is SettleAndReconcile <==> e == (WatchEvent::Changed { target: true }),
        // Only a watcher that is gone ends the watch.
        r is Stop <==> e is Disconnected,
{
    match e {
        WatchEvent::Changed { target } => if target {
            WatchAction::SettleAndReconcile
        } else {
            WatchAction::Wait
        },
        WatchEvent::Timeout => WatchAction::Reconcile,
        WatchEvent::Hiccup => WatchAction::Wait,
        WatchEvent::Disconnected => WatchAction::Stop,
    }
}

} // verus!
