//! Where the hosts of a run come from: the arguments, or the lines of a file.

use vstd::prelude::*;
use vstd::string::*;
use crate::text::{copy_range, from_chars, split, split_text, texts, to_chars};

verus! {

/// The source of the hosts of a run.
#[derive(Debug, Clone, Copy, PartialEq, Eq)]
pub enum Source {
    /// The hosts are the arguments.
    Arguments,
    /// The hosts are the lines of the file.
    File,
}

/// Why a run cannot start.
#[derive(Debug, Clone, Copy, PartialEq, Eq)]
pub enum InputError {
    /// There is no file at the path.
    Missing,
    /// The path is that of a directory.
    Directory,
}

/// The source of the hosts. Hosts given as arguments win, and the file is
/// then not looked at. Without them the file is the source; it must exist and
/// must not be a directory.
pub fn choose_source(hosts_given: usize, file_exists: bool, file_is_directory: bool) -> (source:
    Result<Source, InputError>)
    ensures
        source == if hosts_given > 0 {
            Ok::<Source, InputError>(Source::Arguments)
        } else if !file_exists {
            Err(InputError::Missing)
        } else if file_is_directory {
            Err(InputError::Directory)
        } else {
            Ok(Source::File)
        },
{
    if hosts_given > 0 {
        Ok(Source::Arguments)
    } else if !file_exists {
        Err(InputError::Missing)
    } else if file_is_directory {
        Err(InputError::Directory)
    } else {
        Ok(Source::File)
    }
}

/// The status with which the run ends: zero where it could start, whatever
/// became of the single hosts, and one where it could not.
pub fn exit_status(source: Result<Source, InputError>) -> (status: i32)
    ensures
        status == if source is Ok {
            0i32
        } else {
            1i32
        },
{
    match source {
        Ok(_) => 0,
        Err(_) => 1,
    }
}

/// A line without the carriage return at its end, if it has one.
pub open spec fn without_return(line: Seq<char>) -> Seq<char> {
    if line.len() > 0 && line.last() == '\r' {
        line.drop_last()
    } else {
        line
    }
}

/// The lines of a text, each of them a host. A line ends with a line feed,
/// or with a carriage return and a line feed, and neither belongs to it; what
/// follows the last line feed is a line too, unless it is empty.
pub open spec fn host_lines(text: Seq<char>) -> Seq<Seq<char>> {
    let pieces = split(text, seq!['\n']);
    let ended = Seq::new((pieces.len() - 1) as nat, |i: int| without_return(pieces[i]));
    if pieces.last().len() > 0 {
        ended.push(pieces.last())
    } else {
        ended
    }
}

/// The texts of the strings, in order.
pub open spec fn strings(lines: Seq<String>) -> Seq<Seq<char>> {
    Seq::new(lines.len(), |i: int| lines[i]@)
}

/// The hosts that a file with this text names, one for each of its lines.
pub fn hosts_in(text: &str) -> (hosts: Vec<String>)
    ensures
        strings(hosts@) == host_lines(text@),
{
    proof {
        reveal_strlit("\n");
    }
    let newline = to_chars("\n");
    assert(newline@ =~= seq!['\n']);
    let pieces = split_text(&to_chars(text), &newline);
    let ghost parts = texts(pieces@);
    let mut hosts: Vec<String> = Vec::new();
    let mut i: usize = 0;
    while i + 1 < pieces.len()
        invariant
            pieces.len() >= 1,
            i + 1 <= pieces.len(),
            parts == texts(pieces@),
            strings(hosts@) == Seq::new(i as nat, |k: int| without_return(parts[k])),
        decreases pieces.len() - i,
    {
        let ghost before = strings(hosts@);
        let piece = &pieces[i];
        let length = piece.len();
        let line = if length > 0 && piece[length - 1] == '\r' {
            from_chars(&copy_range(piece, 0, length - 1))
        } else {
            from_chars(piece)
        };
        assert(line@ =~= without_return(parts[i as int]));
        hosts.push(line);
        assert(strings(hosts@) =~= before.push(without_return(parts[i as int])));
        i += 1;
    }
    let last = &pieces[pieces.len() - 1];
    if last.len() > 0 {
        let ghost before = strings(hosts@);
        hosts.push(from_chars(last));
        assert(strings(hosts@) =~= before.push(parts.last()));
    }
    hosts
}

} // verus!
