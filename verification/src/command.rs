//! The pure logic of command dispatch: interpreting a finished process's
//! captured output, resolving a symbolic command name against the
//! configured name-to-invocation table, and counting running nodes in a
//! status listing. Reading the table file and executing the resolved
//! invocation are the caller's I/O.

use vstd::prelude::*;

use crate::text::is_substring;
use crate::text::contains_substring;
use crate::text::spec_joined;
use crate::text::spec_split_lines;
use crate::text::join_with_spaces;
use crate::text::split_lines;

verus! {

/// The structured result of one executed command.
#[derive(Debug)]
pub struct CommandResult {
    pub status: String,
    pub stdout: String,
    pub stderr: String,
}

/// The message reported when a command exits unsuccessfully.
pub open spec fn spec_failure_message(status: Seq<char>, out: Seq<char>, err: Seq<char>) -> Seq<
    char,
> {
    "Command failed with status: "@ + status + "\nStdout: "@ + out + "\nStderr: "@ + err
}

/// Interprets a finished command's captured output: a successful exit
/// yields the structured result with status `success`, an unsuccessful one
/// yields the failure message carrying the status text and both captures.
pub fn process_output(success: bool, status_text: &str, stdout: &str, stderr: &str) -> (r: Result<
    CommandResult,
    String,
>)
    ensures
        r is Ok <==> success,
        success ==> r.unwrap().status@ == "success"@ && r.unwrap().stdout@ == stdout@
            && r.unwrap().stderr@ == stderr@,
        !success ==> r.unwrap_err()@ == spec_failure_message(status_text@, stdout@, stderr@),
{
    if success {
        Ok(
            CommandResult {
                status: String::from_str("success"),
                stdout: String::from_str(stdout),
                stderr: String::from_str(stderr),
            },
        )
    } else {
        let mut m = String::from_str("Command failed with status: ");
        m.append(status_text);
        m.append("\nStdout: ");
        m.append(stdout);
        m.append("\nStderr: ");
        m.append(stderr);
        Err(m)
    }
}

/// What parsing the command table text yields: the name-to-invocation map
/// on well-formed input, the parser's error message otherwise. The result
/// depends on the text alone.
pub uninterp spec fn command_map_parse(s: Seq<char>) -> Result<Map<Seq<char>, Seq<char>>, Seq<
    char,
>>;

/// Relies on serde_json::from_str::<HashMap<String, String>>: whether a
/// JSON object of string-to-string entries parses, and which entries it
/// holds, depend on the input text alone; only the order of the returned
/// pairs does not, so nothing is said of it.
#[verifier::external_body]
fn parse_command_map(s: &str) -> (r: Result<Vec<(String, String)>, String>)
    ensures
        r is Ok <==> command_map_parse(s@) is Ok,
        r is Ok ==> {
            let m = command_map_parse(s@)->Ok_0;
            let v = r.unwrap()@;
            &&& forall|i: int, j: int|
                0 <= i < j < v.len() ==> (#[trigger] v[i]).0@ != (#[trigger] v[j]).0@
            &&& forall|i: int|
                0 <= i < v.len() ==> m.contains_key((#[trigger] v[i]).0@) && m[v[i].0@]
                    == v[i].1@
            &&& forall|k: Seq<char>|
                #[trigger] m.contains_key(k) ==> exists|i: int|
                    0 <= i < v.len() && (#[trigger] v[i]).0@ == k
        },
        r is Err ==> r.unwrap_err()@ == command_map_parse(s@)->Err_0,
{
    match serde_json::from_str::<std::collections::HashMap<String, String>>(s) {
        Ok(m) => Ok(m.into_iter().collect()),
        Err(e) => Err(e.to_string()),
    }
}

/// Resolves `command` against the command table in `commands_json` and
/// appends the space-joined `args`, yielding the shell invocation to run.
/// Fails exactly when the table does not parse (with the parser's message)
/// or the name is not in the table.
pub fn resolve_command(commands_json: &str, command: &String, args: &Option<Vec<String>>) -> (r:
    Result<String, String>)
    ensures
        r is Ok <==> command_map_parse(commands_json@) is Ok && command_map_parse(commands_json@)->Ok_0.contains_key(command@),
        command_map_parse(commands_json@) is Err ==> r.unwrap_err()@ == "Failed to parse JSON: "@
            + command_map_parse(commands_json@)->Err_0,
        command_map_parse(commands_json@) is Ok && !command_map_parse(commands_json@)->Ok_0.contains_key(command@) ==> r.unwrap_err()@ == "Command not found: "@ + command@,
        r is Ok ==> r.unwrap()@ == {
            let base = command_map_parse(commands_json@)->Ok_0[command@];
            match args {
                Option::None => base,
                Option::Some(v) => base + seq![' '] + spec_joined(
                    v@.map_values(|e: String| e@),
                    ' ',
                ),
            }
        },
{
    let parsed = parse_command_map(commands_json);
    match parsed {
        Err(e) => {
            let mut m = String::from_str("Failed to parse JSON: ");
            m.append(e.as_str());
            Err(m)
        },
        Ok(entries) => {
            let mut i: usize = 0;
            loop
                invariant
                    command_map_parse(commands_json@) is Ok,
                    i <= entries@.len(),
                    forall|j: int|
                        0 <= j < i ==> (#[trigger] entries@[j]).0@ != command@,
                    forall|j: int|
                        0 <= j < entries@.len() ==> command_map_parse(commands_json@)->Ok_0.contains_key((#[trigger] entries@[j]).0@) && command_map_parse(commands_json@)->Ok_0[entries@[j].0@] == entries@[j].1@,
                    forall|k: Seq<char>|
                        #[trigger] command_map_parse(commands_json@)->Ok_0.contains_key(k)
                            ==> exists|j: int| 0 <= j < entries@.len() && (#[trigger] entries@[j]).0@
                            == k,
                ensures
                    !command_map_parse(commands_json@)->Ok_0.contains_key(command@),
                decreases entries@.len() - i,
            {
                if i == entries.len() {
                    break ;
                }
                if entries[i].0.eq(command) {
                    let mut base = entries[i].1.clone();
                    match args {
                        Option::Some(v) => {
                            base.append(" ");
                            proof {
                                reveal_strlit(" ");
                                assert((" ")@ =~= seq![' ']);
                            }
                            base.append(join_with_spaces(v).as_str());
                        },
                        Option::None => {},
                    }
                    return Ok(base);
                }
                i = i + 1;
            }
            let mut m = String::from_str("Command not found: ");
            m.append(command.as_str());
            Err(m)
        },
    }
}

/// The number of lines containing `RUNNING` as a literal substring.
pub open spec fn spec_running_count(lines: Seq<Seq<char>>) -> int
    decreases lines.len(),
{
    if lines.len() == 0 {
        0
    } else {
        spec_running_count(lines.drop_last()) + if is_substring("RUNNING"@, lines.last()) {
            1int
        } else {
            0int
        }
    }
}

/// A text of `n` characters has at most `n` lines.
pub proof fn lemma_split_lines_count(s: Seq<char>)
    ensures
        spec_split_lines(s).len() <= s.len(),
    decreases s.len(),
{
    if s.len() > 0 {
        let i = crate::text::first_newline(s) as int;
        if i < s.len() {
            lemma_split_lines_count(s.subrange(i + 1, s.len() as int));
        }
    }
}

/// Counts the lines of a status listing that mention a running node:
/// the lines containing `RUNNING` as a literal substring.
pub fn count_running_nodes(status_stdout: &str) -> (r: i32)
    requires
        status_stdout@.len() <= i32::MAX,
    ensures
        r == spec_running_count(spec_split_lines(status_stdout@)),
{
    let lines = split_lines(status_stdout);
    let ghost lviews = lines@.map_values(|e: String| e@);
    proof {
        lemma_split_lines_count(status_stdout@);
    }
    let mut running: i32 = 0;
    let mut i: usize = 0;
    while i < lines.len()
        invariant
            lviews == lines@.map_values(|e: String| e@),
            lviews == spec_split_lines(status_stdout@),
            lviews.len() <= i32::MAX,
            i <= lviews.len(),
            0 <= running <= i,
            running == spec_running_count(lviews.take(i as int)),
        decreases lviews.len() - i,
    {
        proof {
            assert(lviews.take(i + 1).drop_last() =~= lviews.take(i as int));
            assert(lviews.take(i + 1).last() == lviews[i as int]);
        }
        if contains_substring(lines[i].as_str(), "RUNNING") {
            running = running + 1;
        }
        i = i + 1;
    }
    proof {
        assert(lviews.take(lviews.len() as int) =~= lviews);
    }
    running
}

} // verus!
