//! What a program to be traced is started with.
//!
//! Names and arguments are handed to the kernel as strings that end with a NUL, so
//! none of them may hold one.

use vstd::prelude::*;
use vstd::utf8::encode_utf8;

use crate::path::{lossy, FilePath};
use crate::perms::monitor::TraceOptions;
use crate::report::{said, wrapped, Report, ReportView};
use crate::text::{decimal, push_decimal};

verus! {

/// `text` in double quotes, with what cannot be shown escaped.
pub uninterp spec fn quoted(text: Seq<char>) -> Seq<char>;

/// `str`'s `Debug`: the text in double quotes, escaped by rules of the standard
/// library that depend on the text alone.
#[verifier::external_body]
fn quote(text: &str) -> (r: String)
    ensures
        r@ == quoted(text@),
{
    format!("{text:?}")
}

/// A program, its arguments and its environment, none of them holding a NUL.
#[derive(Debug)]
pub struct Launch {
    pub program: Vec<u8>,
    /// The program's own name, and then its arguments.
    pub argv: Vec<Vec<u8>>,
    pub envp: Vec<Vec<u8>>,
    pub working_dir: Option<Vec<u8>>,
}

/// The views of a list of byte strings.
pub open spec fn byte_views(list: Seq<Vec<u8>>) -> Seq<Seq<u8>> {
    list.map_values(|b: Vec<u8>| b@)
}

/// Where the first NUL of `bytes` is, from position `i` on, or past the end.
pub open spec fn nul_from(bytes: Seq<u8>, i: int) -> int
    decreases bytes.len() - i,
{
    if i < 0 || i >= bytes.len() || bytes[i] == 0 {
        i
    } else {
        nul_from(bytes, i + 1)
    }
}

/// What is said of a string that holds a NUL, `what` being what it is.
pub open spec fn nul_failure(what: Seq<char>, bytes: Seq<u8>) -> Option<ReportView> {
    let at = nul_from(bytes, 0);
    if at < bytes.len() {
        Some(
            wrapped(
                what,
                wrapped(
                    "cannot pass a string containing a NUL byte to the traced program"@,
                    said("nul byte found in provided data at position: "@ + decimal(at as nat)),
                ),
            ),
        )
    } else {
        None
    }
}

/// `bytes`, unless there is a NUL in them.
fn without_nul(bytes: &[u8], what: String) -> (r: Result<Vec<u8>, Report>)
    ensures
        r is Err <==> nul_failure(what@, bytes@) is Some,
        match r {
            Ok(copy) => copy@ == bytes@,
            Err(report) => report@ == nul_failure(what@, bytes@)->0,
        },
{
    let mut at: usize = 0;
    while at < bytes.len() && bytes[at] != 0
        invariant
            at <= bytes@.len(),
            nul_from(bytes@, 0) == nul_from(bytes@, at as int),
        decreases bytes@.len() - at,
    {
        at += 1;
    }
    if at < bytes.len() {
        let mut inner = "nul byte found in provided data at position: ".to_owned();
        push_decimal(&mut inner, at as u64);
        let report = Report::new(inner).wrap(
            "cannot pass a string containing a NUL byte to the traced program".to_owned(),
        );
        return Err(report.wrap(what));
    }
    let mut copy: Vec<u8> = Vec::new();
    copy.extend_from_slice(bytes);
    assert(copy@ =~= bytes@);
    Ok(copy)
}

/// An environment variable as the kernel takes it.
pub open spec fn variable(pair: (String, String)) -> Seq<char> {
    pair.0@ + "="@ + pair.1@
}

/// Why an argument cannot be passed.
pub open spec fn arg_failure(arg: Seq<char>) -> Option<ReportView> {
    nul_failure("argument "@ + quoted(arg), encode_utf8(arg))
}

/// Why the first argument from `i` on that cannot be passed cannot be.
pub open spec fn args_failure(args: Seq<String>, i: int) -> Option<ReportView>
    decreases args.len() - i,
{
    if i < 0 || i >= args.len() {
        None
    } else if arg_failure(args[i]@) is Some {
        arg_failure(args[i]@)
    } else {
        args_failure(args, i + 1)
    }
}

/// Why a variable cannot be passed.
pub open spec fn variable_failure(pair: (String, String)) -> Option<ReportView> {
    nul_failure("environment variable "@ + quoted(pair.0@), encode_utf8(variable(pair)))
}

/// Why the first variable from `i` on that cannot be passed cannot be.
pub open spec fn env_failure(env: Seq<(String, String)>, i: int) -> Option<ReportView>
    decreases env.len() - i,
{
    if i < 0 || i >= env.len() {
        None
    } else if variable_failure(env[i]) is Some {
        variable_failure(env[i])
    } else {
        env_failure(env, i + 1)
    }
}

/// Why a program cannot be started this way, if it cannot.
pub open spec fn launch_failure(
    program: Seq<u8>,
    args: Seq<String>,
    options: TraceOptions,
) -> Option<ReportView> {
    let named = nul_failure("program path "@ + lossy(program), program);
    if named is Some {
        named
    } else if args_failure(args, 0) is Some {
        args_failure(args, 0)
    } else if env_failure(options.env@, 0) is Some {
        env_failure(options.env@, 0)
    } else {
        match options.working_dir {
            Some(dir) => nul_failure("working directory"@, dir@),
            None => None,
        }
    }
}

/// What a program is to be started with.
#[verifier::loop_isolation(false)]
pub fn prepare(program: &FilePath, args: &Vec<String>, options: &TraceOptions) -> (r: Result<
    Launch,
    Report,
>)
    ensures
        r is Err <==> launch_failure(program@, args@, *options) is Some,
        match r {
            Err(report) => report@ == launch_failure(program@, args@, *options)->0,
            Ok(launch) => {
                &&& launch.program@ == program@
                &&& byte_views(launch.argv@) == seq![program@] + args@.map_values(
                    |a: String| encode_utf8(a@),
                )
                &&& byte_views(launch.envp@) == options.env@.map_values(
                    |p: (String, String)| encode_utf8(variable(p)),
                )
                &&& launch.working_dir is Some <==> options.working_dir is Some
                &&& launch.working_dir is Some ==> launch.working_dir->0@
                    == options.working_dir->0@
            },
        },
{
    let mut what = "program path ".to_owned();
    what.push_str(program.display().as_str());
    let name = match without_nul(program.bytes.as_slice(), what) {
        Ok(bytes) => bytes,
        Err(report) => return Err(report),
    };
    let mut argv: Vec<Vec<u8>> = Vec::new();
    argv.push(FilePath::from_bytes(name.as_slice()).bytes);
    let mut i: usize = 0;
    while i < args.len()
        invariant
            i <= args@.len(),
            args_failure(args@, i as int) == args_failure(args@, 0),
            argv@.len() == i + 1,
            argv@[0]@ == program@,
            forall|j: int| 0 <= j < i ==> (#[trigger] argv@[j + 1])@ == encode_utf8(args@[j]@),
        decreases args@.len() - i,
    {
        let mut what = "argument ".to_owned();
        what.push_str(quote(args[i].as_str()).as_str());
        match without_nul(args[i].as_str().as_bytes(), what) {
            Ok(bytes) => argv.push(bytes),
            Err(report) => return Err(report),
        }
        i += 1;
    }
    let mut envp: Vec<Vec<u8>> = Vec::new();
    let mut k: usize = 0;
    while k < options.env.len()
        invariant
            k <= options.env@.len(),
            env_failure(options.env@, k as int) == env_failure(options.env@, 0),
            envp@.len() == k,
            forall|j: int|
                0 <= j < k ==> (#[trigger] envp@[j])@ == encode_utf8(variable(options.env@[j])),
        decreases options.env@.len() - k,
    {
        let (key, value) = &options.env[k];
        let mut text = key.clone();
        text.push_str("=");
        text.push_str(value.as_str());
        let mut what = "environment variable ".to_owned();
        what.push_str(quote(key.as_str()).as_str());
        match without_nul(text.as_str().as_bytes(), what) {
            Ok(bytes) => envp.push(bytes),
            Err(report) => return Err(report),
        }
        k += 1;
    }
    let working_dir = match &options.working_dir {
        Some(dir) => match without_nul(dir.bytes.as_slice(), "working directory".to_owned()) {
            Ok(bytes) => Some(bytes),
            Err(report) => return Err(report),
        },
        None => None,
    };
    proof {
        let expected = seq![program@] + args@.map_values(|a: String| encode_utf8(a@));
        assert forall|j: int| 0 <= j < argv@.len() implies byte_views(argv@)[j] == expected[j] by {
            if j > 0 {
                assert(argv@[(j - 1) + 1]@ == encode_utf8(args@[j - 1]@));
            }
        }
        assert(byte_views(argv@) =~= expected);
        assert(byte_views(envp@) =~= options.env@.map_values(
            |p: (String, String)| encode_utf8(variable(p)),
        ));
    }
    Ok(Launch { program: name, argv, envp, working_dir })
}

/// A string can be passed when it holds no NUL; one that does is refused for the first.
pub proof fn lemma_first_nul_is_told(what: Seq<char>, bytes: Seq<u8>, at: int)
    ensures
        (forall|i: int| 0 <= i < bytes.len() ==> #[trigger] bytes[i] != 0) ==> nul_failure(
            what,
            bytes,
        ) is None,
        0 <= at < bytes.len() && bytes[at] == 0 && (forall|i: int|
            0 <= i < at ==> #[trigger] bytes[i] != 0) ==> nul_failure(what, bytes) == Some(
            ReportView {
                code: None,
                message: what,
                help: None,
                causes: seq![
                    "cannot pass a string containing a NUL byte to the traced program"@,
                    "nul byte found in provided data at position: "@ + decimal(at as nat),
                ],
            },
        ),
{
    lemma_first_nul(bytes, 0);
    let n = nul_from(bytes, 0);
    if 0 <= at < bytes.len() && bytes[at] == 0 && (forall|i: int|
        0 <= i < at ==> #[trigger] bytes[i] != 0) {
        assert(n == at);
        assert(nul_failure(what, bytes)->0.causes =~= seq![
            "cannot pass a string containing a NUL byte to the traced program"@,
            "nul byte found in provided data at position: "@ + decimal(at as nat),
        ]);
    }
}

proof fn lemma_first_nul(bytes: Seq<u8>, i: int)
    requires
        0 <= i <= bytes.len(),
    ensures
        i <= nul_from(bytes, i) <= bytes.len(),
        forall|j: int| i <= j < nul_from(bytes, i) ==> #[trigger] bytes[j] != 0,
        nul_from(bytes, i) < bytes.len() ==> bytes[nul_from(bytes, i)] == 0,
    decreases bytes.len() - i,
{
    if i < bytes.len() && bytes[i] != 0 {
        lemma_first_nul(bytes, i + 1);
    }
}

proof fn lemma_first_argument(args: Seq<String>, i: int)
    requires
        0 <= i <= args.len(),
    ensures
        args_failure(args, i) is None <==> forall|j: int|
            i <= j < args.len() ==> arg_failure((#[trigger] args[j])@) is None,
        forall|k: int|
            i <= k < args.len() && arg_failure((#[trigger] args[k])@) is Some && (forall|j: int|
                i <= j < k ==> arg_failure((#[trigger] args[j])@) is None) ==> args_failure(args, i)
                == arg_failure(args[k]@),
    decreases args.len() - i,
{
    if i < args.len() {
        lemma_first_argument(args, i + 1);
    }
}

proof fn lemma_first_variable(env: Seq<(String, String)>, i: int)
    requires
        0 <= i <= env.len(),
    ensures
        env_failure(env, i) is None <==> forall|j: int|
            i <= j < env.len() ==> variable_failure(#[trigger] env[j]) is None,
        forall|k: int|
            i <= k < env.len() && variable_failure(#[trigger] env[k]) is Some && (forall|j: int|
                i <= j < k ==> variable_failure(#[trigger] env[j]) is None) ==> env_failure(env, i)
                == variable_failure(env[k]),
    decreases env.len() - i,
{
    if i < env.len() {
        lemma_first_variable(env, i + 1);
    }
}

/// A program can be started when its path, every argument, every variable and its working
/// directory can be passed.
pub proof fn lemma_what_can_be_started(
    program: Seq<u8>,
    args: Seq<String>,
    options: TraceOptions,
)
    ensures
        launch_failure(program, args, options) is None <==> {
            &&& nul_from(program, 0) == program.len()
            &&& forall|i: int|
                0 <= i < args.len() ==> arg_failure((#[trigger] args[i])@) is None
            &&& forall|i: int|
                0 <= i < options.env@.len() ==> variable_failure(#[trigger] options.env@[i]) is None
            &&& options.working_dir matches Some(dir) ==> nul_from(dir@, 0) == dir@.len()
        },
{
    lemma_first_nul(program, 0);
    lemma_first_argument(args, 0);
    lemma_first_variable(options.env@, 0);
    match options.working_dir {
        Some(dir) => {
            lemma_first_nul(dir@, 0);
        },
        None => {},
    }
}

/// What keeps a program from being started is told in this order: its path, its first
/// bad argument, its first bad variable, its working directory.
pub proof fn lemma_first_failure_is_told(
    program: Seq<u8>,
    args: Seq<String>,
    options: TraceOptions,
    k: int,
)
    ensures
        ({
            let told = launch_failure(program, args, options);
            let env = options.env@;
            let path_is_good = nul_failure("program path "@ + lossy(program), program) is None;
            let args_are_good = forall|i: int|
                0 <= i < args.len() ==> arg_failure((#[trigger] args[i])@) is None;
            let env_is_good = forall|i: int|
                0 <= i < env.len() ==> variable_failure(#[trigger] env[i]) is None;
            &&& !path_is_good ==> told == nul_failure("program path "@ + lossy(program), program)
            &&& path_is_good && 0 <= k < args.len() && arg_failure(args[k]@) is Some && (forall|
                i: int,
            |
                0 <= i < k ==> arg_failure((#[trigger] args[i])@) is None) ==> told == nul_failure(
                "argument "@ + quoted(args[k]@),
                encode_utf8(args[k]@),
            )
            &&& path_is_good && args_are_good && 0 <= k < env.len() && variable_failure(env[k])
                is Some && (forall|i: int|
                0 <= i < k ==> variable_failure(#[trigger] env[i]) is None) ==> told == nul_failure(
                "environment variable "@ + quoted(env[k].0@),
                encode_utf8(env[k].0@ + "="@ + env[k].1@),
            )
            &&& path_is_good && args_are_good && env_is_good ==> (match options.working_dir {
                Some(dir) => told == nul_failure("working directory"@, dir@),
                None => told is None,
            })
        }),
{
    lemma_first_argument(args, 0);
    lemma_first_variable(options.env@, 0);
}

} // verus!
