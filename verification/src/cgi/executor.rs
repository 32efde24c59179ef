//! Starting a script: what is run, where, and with what.

use vstd::prelude::*;
use vstd::string::*;

use crate::cgi::env;
use crate::cgi::{CgiProcess, CgiTarget, ProcessView, TargetView};
use crate::config::types::{Method, ServerConfig, ServerView};
use crate::http::request::types::{Request, RequestView};
use crate::http::response::types::entry_views;
use crate::server::connection::{PeerAddr, PeerView};
use crate::text;

verus! {

/// Why a script could not be started.
#[derive(Debug, Clone, Copy, PartialEq, Eq, Structural)]
pub enum CgiError {
    /// No pipe could be made; with `errno`.
    Pipe(i32),
    /// No process could be made; with `errno`.
    Fork(i32),
    /// An argument holds the character zero, which ends arguments.
    BadArgument,
}

impl CgiError {
    /// The error as a sentence.
    pub fn message(&self) -> (r: String)
        ensures
            r@ == match *self {
                CgiError::Pipe(e) => "pipe2 failed: errno "@ + text::signed(e as int),
                CgiError::Fork(e) => "fork failed: errno "@ + text::signed(e as int),
                CgiError::BadArgument => "CGI argument contained a NUL byte"@,
            },
    {
        match self {
            CgiError::Pipe(e) => text::joined("pipe2 failed: errno ", text::signed_text(*e).as_str()),
            CgiError::Fork(e) => text::joined("fork failed: errno ", text::signed_text(*e).as_str()),
            CgiError::BadArgument => text::owned("CGI argument contained a NUL byte"),
        }
    }
}

/// What is run, where, and with what.
#[derive(Debug)]
pub struct ExecPlan {
    /// The program, which is also its own first argument.
    pub program: String,
    /// Its second argument.
    pub script: String,
    /// The directory it is run in.
    pub dir: String,
    /// Its environment, each variable as `name=value`.
    pub env: Vec<String>,
}

/// An [`ExecPlan`] with texts for its strings.
#[verifier::ext_equal]
pub struct ExecView {
    pub program: Seq<char>,
    pub script: Seq<char>,
    pub dir: Seq<char>,
    pub env: Seq<Seq<char>>,
}

impl View for ExecPlan {
    type V = ExecView;

    open spec fn view(&self) -> ExecView {
        ExecView {
            program: self.program@,
            script: self.script@,
            dir: self.dir@,
            env: text::views(self.env@),
        }
    }
}

/// A variable as it is handed to a program.
pub open spec fn assignment(e: (Seq<char>, Seq<char>)) -> Seq<char> {
    e.0 + "="@ + e.1
}

/// Variables as they are handed to a program. Those that hold the character
/// zero cannot be, and are left out.
pub open spec fn assignments(v: env::Variables) -> Seq<Seq<char>>
    decreases v.len(),
{
    if v.len() == 0 {
        Seq::empty()
    } else if assignment(v.last()).contains('\0') {
        assignments(v.drop_last())
    } else {
        assignments(v.drop_last()).push(assignment(v.last()))
    }
}

/// How a script is run: by its interpreter, in its own directory, with the
/// request in the environment; not at all where one of the three holds the
/// character zero.
pub open spec fn plan(
    target: TargetView,
    req: RequestView,
    names: Seq<Seq<char>>,
    server: ServerView,
    port: u16,
    peer: PeerView,
) -> Result<ExecView, CgiError> {
    if target.interpreter.contains('\0') || target.script_path.contains('\0')
        || target.script_dir.contains('\0') {
        Err(CgiError::BadArgument)
    } else {
        Ok(
            ExecView {
                program: target.interpreter,
                script: target.script_path,
                dir: target.script_dir,
                env: assignments(
                    env::environment(
                        req,
                        names,
                        target.script_path,
                        target.script_path,
                        server,
                        port,
                        peer,
                    ),
                ),
            },
        )
    }
}

/// Whether a string holds the character zero.
fn has_nul(s: &str) -> (r: bool)
    ensures
        r == s@.contains('\0'),
{
    let v = text::chars_of(s);
    proof {
        text::lemma_index_of(s@, '\0');
    }
    text::find_char(v.as_slice(), '\0') < v.len()
}

/// Variables as they are handed to a program.
fn assignment_list(vars: &[(String, String)]) -> (r: Vec<String>)
    ensures
        text::views(r@) == assignments(entry_views(vars@)),
{
    let ghost all = entry_views(vars@);
    let mut out: Vec<String> = Vec::new();
    let mut i: usize = 0;
    proof {
        assert(all.take(0) =~= Seq::empty());
        assert(text::views(out@) =~= Seq::empty());
    }
    while i < vars.len()
        invariant
            i <= vars@.len(),
            all == entry_views(vars@),
            text::views(out@) == assignments(all.take(i as int)),
        decreases vars@.len() - i,
    {
        let e: &(String, String) = &vars[i];
        let mut s = text::joined(e.0.as_str(), "=");
        s.append(e.1.as_str());
        proof {
            let t = all.take(i + 1);
            assert(t.last() == (e.0@, e.1@));
            assert(t.drop_last() =~= all.take(i as int));
        }
        if !has_nul(s.as_str()) {
            let ghost before = out@;
            let ghost w = s@;
            out.push(s);
            assert(text::views(out@) =~= text::views(before).push(w));
        }
        i = i + 1;
    }
    assert(all.take(i as int) =~= all);
    out
}

/// How a script is run.
pub fn exec_plan(
    target: &CgiTarget,
    req: &Request,
    server: &ServerConfig,
    server_port: u16,
    peer: &PeerAddr,
) -> (r: Result<ExecPlan, CgiError>)
    ensures
        match plan(target@, req@, req.headers.names(), server@, server_port, peer@) {
            Ok(p) => r matches Ok(q) && q@ == p,
            Err(e) => r == Err::<ExecPlan, CgiError>(e),
        },
{
    if has_nul(target.interpreter.as_str()) || has_nul(target.script_path.as_str()) || has_nul(
        target.script_dir.as_str(),
    ) {
        return Err(CgiError::BadArgument);
    }
    let vars = env::build_env(
        req,
        target.script_path.as_str(),
        target.script_path.as_str(),
        server,
        server_port,
        peer,
    );
    Ok(
        ExecPlan {
            program: text::owned(target.interpreter.as_str()),
            script: text::owned(target.script_path.as_str()),
            dir: text::owned(target.script_dir.as_str()),
            env: assignment_list(vars.as_slice()),
        },
    )
}

/// A script that has just been started, with the body of the request to read.
pub fn started(pid: i32, stdin_fd: i32, stdout_fd: i32, req: &Request) -> (p: CgiProcess)
    ensures
        p.wf(),
        p@ == (ProcessView {
            pid,
            stdin_fd: Some(stdin_fd),
            stdout_fd,
            body: req@.body,
            body_cursor: 0,
            out_buf: Seq::empty(),
            head_only: req@.method == Method::Head,
        }),
{
    CgiProcess {
        pid,
        stdin_fd: Some(stdin_fd),
        stdout_fd,
        body: vstd::slice::slice_to_vec(req.body.as_slice()),
        body_cursor: 0,
        out_buf: Vec::new(),
        head_only: req.method == Method::Head,
    }
}

/// No argument, and no variable, that is handed to a program holds the
/// character zero.
pub proof fn lemma_no_nul(v: env::Variables)
    ensures
        forall|i: int|
            0 <= i < assignments(v).len() ==> !(#[trigger] assignments(v)[i]).contains('\0'),
    decreases v.len(),
{
    if v.len() > 0 {
        lemma_no_nul(v.drop_last());
        let before = assignments(v.drop_last());
        assert forall|i: int| 0 <= i < assignments(v).len() implies !(
        #[trigger] assignments(v)[i]).contains('\0') by {
            if i < before.len() {
                assert(assignments(v)[i] == before[i]);
            }
        }
    }
}

/// Every variable that can be handed to a program is, as its name, an equals sign
/// and its value; and nothing else is.
pub proof fn lemma_assignments(v: env::Variables)
    ensures
        forall|i: int|
            0 <= i < v.len() && !(v[i].0 + seq!['='] + v[i].1).contains('\0') ==> assignments(
                v,
            ).contains((#[trigger] v[i]).0 + seq!['='] + v[i].1),
        forall|k: int|
            0 <= k < assignments(v).len() ==> exists|i: int|
                0 <= i < v.len() && #[trigger] assignments(v)[k] == (#[trigger] v[i]).0 + seq!['=']
                    + v[i].1,
        assignments(v).len() <= v.len(),
    decreases v.len(),
{
    reveal_strlit("=");
    assert("="@ =~= seq!['=']);
    let all = assignments(v);
    if v.len() > 0 {
        let less = v.drop_last();
        let before = assignments(less);
        lemma_assignments(less);
        assert forall|i: int|
            0 <= i < v.len() && !(v[i].0 + seq!['='] + v[i].1).contains('\0') implies all.contains(
            (#[trigger] v[i]).0 + seq!['='] + v[i].1,
        ) by {
            let w = v[i].0 + seq!['='] + v[i].1;
            if i < less.len() {
                assert(less[i] == v[i]);
                let k = choose|k: int| 0 <= k < before.len() && before[k] == w;
                assert(all[k] == w);
            } else {
                assert(all[before.len() as int] == w);
            }
        }
        assert forall|k: int| 0 <= k < all.len() implies exists|i: int|
            0 <= i < v.len() && #[trigger] all[k] == (#[trigger] v[i]).0 + seq!['=']
                + v[i].1 by {
            if k < before.len() {
                assert(all[k] == before[k]);
                let i = choose|i: int|
                    0 <= i < less.len() && before[k] == (#[trigger] less[i]).0 + seq!['=']
                        + less[i].1;
                assert(v[i] == less[i]);
            } else {
                assert(v[v.len() - 1] == v.last());
            }
        }
    }
}

/// A script is run by its interpreter, in its own directory, with every variable
/// of the request that can be handed over; and not at all where a path holds the
/// character zero.
pub proof fn lemma_plan(
    target: TargetView,
    req: RequestView,
    names: Seq<Seq<char>>,
    server: ServerView,
    port: u16,
    peer: PeerView,
)
    ensures
        ({
            let zero = target.interpreter.contains('\0') || target.script_path.contains('\0')
                || target.script_dir.contains('\0');
            let v = env::environment(
                req,
                names,
                target.script_path,
                target.script_path,
                server,
                port,
                peer,
            );
            match plan(target, req, names, server, port, peer) {
                Err(e) => zero && e == CgiError::BadArgument,
                Ok(p) => {
                    &&& !zero
                    &&& p.program == target.interpreter
                    &&& p.script == target.script_path
                    &&& p.dir == target.script_dir
                    &&& forall|i: int|
                        0 <= i < v.len() && !(v[i].0 + seq!['='] + v[i].1).contains('\0')
                            ==> p.env.contains((#[trigger] v[i]).0 + seq!['='] + v[i].1)
                },
            }
        }),
{
    lemma_assignments(
        env::environment(
            req,
            names,
            target.script_path,
            target.script_path,
            server,
            port,
            peer,
        ),
    );
}

/// Variables are handed over in their order, each as its name, an equals sign and
/// its value; one that holds the character zero is left out.
pub proof fn lemma_assignment_order(
    a: env::Variables,
    e: (Seq<char>, Seq<char>),
    b: env::Variables,
)
    ensures
        assignments(Seq::empty()) == Seq::<Seq<char>>::empty(),
        !(e.0 + seq!['='] + e.1).contains('\0') ==> assignments(a + seq![e] + b) == assignments(a)
            + seq![e.0 + seq!['='] + e.1] + assignments(b),
        (e.0 + seq!['='] + e.1).contains('\0') ==> assignments(a + seq![e] + b) == assignments(a)
            + assignments(b),
    decreases b.len(),
{
    reveal_strlit("=");
    assert("="@ =~= seq!['=']);
    let s = a + seq![e] + b;
    let one = if assignment(e).contains('\0') {
        Seq::empty()
    } else {
        seq![assignment(e)]
    };
    if b.len() == 0 {
        assert(s.drop_last() =~= a);
        assert(s.last() == e);
        assert(assignments(s) =~= assignments(a) + one + assignments(b));
    } else {
        let rest = b.drop_last();
        lemma_assignment_order(a, e, rest);
        assert(s.drop_last() =~= a + seq![e] + rest);
        assert(s.last() == b.last());
        assert(assignments(a) + Seq::<Seq<char>>::empty() =~= assignments(a));
        assert(assignments(s) =~= assignments(a) + one + assignments(b));
    }
    assert(assignments(a) + Seq::<Seq<char>>::empty() =~= assignments(a));
}

} // verus!
