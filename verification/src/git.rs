//! The command that fetches the repository.

use crate::args::optional_text;
use crate::path::byte_strings;
use crate::path::copy_bytes;
use crate::path::decode_lossy;
use crate::path::text_of;
use crate::path::RawPath;
use vstd::prelude::*;
use vstd::utf8::encode_utf8;

verus! {

/// A command to run.
#[derive(Debug)]
pub struct CloneCommand {
    /// The program.
    pub program: String,
    /// The variable that is set for it, and its value.
    pub variable: (String, String),
    /// Its arguments.
    pub args: Vec<Vec<u8>>,
}

/// The address of a repository. A token goes before the host.
pub open spec fn url_text(repo: Seq<char>, token: Option<Seq<char>>) -> Seq<char> {
    match token {
        Some(token) => "https://"@ + token + "@github.com/"@ + repo + ".git"@,
        None => "https://github.com/"@ + repo + ".git"@,
    }
}

/// The address of a repository.
pub fn clone_url(repo: &str, token: &Option<String>) -> (url: String)
    ensures
        url@ == url_text(repo@, optional_text(*token)),
{
    let mut url: String;
    match token {
        Some(token) => {
            url = "https://".to_owned();
            url.append(token.as_str());
            url.append("@github.com/");
        },
        None => {
            url = "https://github.com/".to_owned();
        },
    }
    url.append(repo);
    url.append(".git");
    url
}

/// The arguments that fetch the newest state of a repository into `dest`, without its tags.
pub open spec fn clone_args(url: Seq<char>, dest: Seq<u8>) -> Seq<Seq<u8>> {
    seq![
        encode_utf8("clone"@),
        encode_utf8("--depth"@),
        encode_utf8("1"@),
        encode_utf8("--no-tags"@),
        encode_utf8(url),
        dest,
    ]
}

/// The command that fetches a repository into `dest`. Git may not ask for a password.
pub fn clone_command(repo: &str, token: &Option<String>, dest: &RawPath) -> (command: CloneCommand)
    ensures
        command.program@ == "git"@,
        command.variable.0@ == "GIT_TERMINAL_PROMPT"@,
        command.variable.1@ == "0"@,
        byte_strings(command.args@) == clone_args(
            url_text(repo@, optional_text(*token)),
            dest@,
        ),
{
    let url = clone_url(repo, token);
    let mut args: Vec<Vec<u8>> = Vec::new();
    args.push(copy_bytes("clone".as_bytes()));
    args.push(copy_bytes("--depth".as_bytes()));
    args.push(copy_bytes("1".as_bytes()));
    args.push(copy_bytes("--no-tags".as_bytes()));
    args.push(copy_bytes(url.as_str().as_bytes()));
    args.push(copy_bytes(dest.as_bytes()));
    assert(byte_strings(args@) =~= clone_args(url@, dest@));
    CloneCommand {
        program: "git".to_owned(),
        variable: ("GIT_TERMINAL_PROMPT".to_owned(), "0".to_owned()),
        args,
    }
}

/// The message for a failed command that wrote `complaint`.
pub fn failure_message(complaint: &str) -> (message: String)
    ensures
        message@ == "Failed to clone repository: "@ + complaint@,
{
    let mut message = "Failed to clone repository: ".to_owned();
    message.append(complaint);
    message
}

/// What becomes of the run, given whether the command succeeded and what it wrote to its error
/// output.
pub fn clone_result(success: bool, stderr: &[u8]) -> (result: Result<(), String>)
    ensures
        result is Ok <==> success,
        result is Err ==> result->Err_0@ == "Failed to clone repository: "@ + text_of(stderr@),
{
    if success {
        Ok(())
    } else {
        Err(failure_message(decode_lossy(stderr).as_str()))
    }
}

/// The address names the whole repository between the host and the ending. A token stands with an
/// at sign before the host, and changes nothing else.
pub proof fn law_address_of_repository(repo: Seq<char>, token: Seq<char>)
    ensures
        url_text(repo, None) == "https://github.com/"@ + repo + ".git"@,
        url_text(repo, Some(token)).take(token.len() as int + 9) == "https://"@ + token + "@"@,
        url_text(repo, Some(token)).skip(token.len() as int + 9) == url_text(repo, None).skip(8),
{
    let plain = url_text(repo, None);
    let whole = url_text(repo, Some(token));
    reveal_strlit("https://");
    reveal_strlit("https://github.com/");
    reveal_strlit("@github.com/");
    reveal_strlit("github.com/");
    reveal_strlit("@");
    assert("https://github.com/"@ =~= "https://"@ + "github.com/"@);
    assert("@github.com/"@ =~= "@"@ + "github.com/"@);
    assert(whole =~= "https://"@ + token + "@"@ + "github.com/"@ + repo + ".git"@);
    assert(plain =~= "https://"@ + "github.com/"@ + repo + ".git"@);
    assert(whole.take(token.len() as int + 9) =~= "https://"@ + token + "@"@);
    assert(whole.skip(token.len() as int + 9) =~= plain.skip(8));
}

/// The command fetches one revision without tags, from the address and into the directory that it
/// is given: these are its last arguments.
pub proof fn law_command_fetches_one_revision(url: Seq<char>, dest: Seq<u8>)
    ensures
        ({
            let args = clone_args(url, dest);
            &&& args.len() == 6
            &&& args[0] == encode_utf8("clone"@)
            &&& args[1] == encode_utf8("--depth"@)
            &&& args[2] == encode_utf8("1"@)
            &&& args[3] == encode_utf8("--no-tags"@)
            &&& args[4] == encode_utf8(url)
            &&& args[5] == dest
        }),
{
}

} // verus!
