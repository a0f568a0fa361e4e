//! The decisions behind each command.
//!
//! A command runs at the boundary: it reads files, prompts, and prints.
//! Everything it decides — which error a request earns, what is written,
//! which protocol line may be emitted — is computed here, over plain
//! values handed in from that boundary, so every decision is verified.

use vstd::prelude::*;

use crate::codec::encode_spec;
use crate::protocol::{cd_prefix, has_newline, sentinel};
use crate::record::{Error, Workspace};
use crate::store;
use crate::store::{
    get_model, lookup, record_file_name, remove_model, valid_name, wf, write_model, EntryV,
    Registry,
};

verus! {

/// What `open` comes to: the protocol line to emit, or the failure to
/// report — and never a line when the workspace's path is gone.
pub enum OpenOutcome {
    /// Emit this sentinel line, and nothing else, on standard output.
    Run(Vec<u8>),
    /// Report this failure and exit non-zero; no sentinel line is emitted.
    Fail(Error),
}

/// The registry's answer for a name, reduced to plain values: absent,
/// unreadable or unparsable, or the stored path.
pub open spec fn found_view(found: Option<Result<Workspace, Error>>) -> Option<
    Result<Seq<u8>, Error>,
> {
    match found {
        None => None,
        Some(inner) => Some(
            match inner {
                Ok(ws) => Ok(ws.path@),
                Err(e) => Err(e),
            },
        ),
    }
}

/// The decision `open` owes: `NotFound` for an absent name, the record's
/// own error for a bad record, `MovedOrMissing` where the stored path no
/// longer exists on disk, and otherwise the sentinel line that changes
/// into the stored path. A path holding a newline cannot be framed as a
/// protocol line and is refused as an I/O failure.
pub open spec fn open_model(found: Option<Result<Seq<u8>, Error>>, path_exists: bool) -> Result<
    Seq<u8>,
    Error,
> {
    match found {
        None => Err(Error::NotFound),
        Some(inner) => match inner {
            Err(e) => Err(e),
            Ok(p) => if !path_exists {
                Err(Error::MovedOrMissing)
            } else if has_newline(p) {
                Err(Error::Io)
            } else {
                Ok(sentinel() + cd_prefix() + p)
            },
        },
    }
}

/// Decides `open`: `found` is what [`store::get`] answered for the name,
/// `path_exists` whether the stored path is still present on disk.
///
/// A missing path yields `Fail(MovedOrMissing)` and, like every failure,
/// carries no sentinel line; a line is produced only when the record is
/// good and its path exists, and it never holds an embedded newline.
pub fn open_decide(found: Option<Result<Workspace, Error>>, path_exists: bool) -> (r: OpenOutcome)
    ensures
        match r {
            OpenOutcome::Run(line) => open_model(found_view(found), path_exists) == Ok::<
                Seq<u8>,
                Error,
            >(line@) && !has_newline(line@),
            OpenOutcome::Fail(e) => open_model(found_view(found), path_exists) == Err::<
                Seq<u8>,
                Error,
            >(e),
        },
        r is Run ==> path_exists,
{
    match found {
        None => OpenOutcome::Fail(Error::NotFound),
        Some(inner) => match inner {
            Err(e) => OpenOutcome::Fail(e),
            Ok(ws) => {
                if !path_exists {
                    OpenOutcome::Fail(Error::MovedOrMissing)
                } else if crate::protocol::contains_newline(&ws.path) {
                    OpenOutcome::Fail(Error::Io)
                } else {
                    let line = ws.open();
                    OpenOutcome::Run(line)
                }
            },
        },
    }
}

/// What `add` does to the registry: nothing but `AlreadyExists` where the
/// name is taken, else the record of the working directory is written.
pub open spec fn add_model(m: Seq<EntryV>, name: Seq<char>, path: Seq<u8>) -> (
    Seq<EntryV>,
    Result<(), Error>,
) {
    if lookup(m, record_file_name(name)) is Some {
        (m, Err(Error::AlreadyExists))
    } else {
        (write_model(m, record_file_name(name), encode_spec(path)), Ok(()))
    }
}

/// Registers the working directory `cwd` under `name`: refused with
/// `AlreadyExists`, and the registry left untouched, where the name is
/// taken; otherwise the record is created.
pub fn add(reg: &mut Registry, name: &str, cwd: Vec<u8>) -> (r: Result<(), Error>)
    requires
        valid_name(name@),
        wf(old(reg)@),
    ensures
        wf(final(reg)@),
        (final(reg)@, r) == add_model(old(reg)@, name@, cwd@),
{
    if store::record_exists(reg, name) {
        Err(Error::AlreadyExists)
    } else {
        let ws = Workspace::new(cwd);
        store::write(reg, &ws, name);
        Ok(())
    }
}

/// After any write of `name`, `lookup` answers with the written record.
proof fn lemma_lookup_write(m: Seq<EntryV>, f: Seq<char>, c: Seq<u8>)
    ensures
        lookup(write_model(m, f, c), f) == Some(
            EntryV { name: f, is_file: true, content: Some(c) },
        ),
    decreases m.len(),
{
    let e = EntryV { name: f, is_file: true, content: Some(c) };
    if m.len() == 0 {
        assert(write_model(m, f, c)[0] == e);
    } else if m[0].name == f {
        assert(write_model(m, f, c)[0] == e);
    } else {
        lemma_lookup_write(m.skip(1), f, c);
        assert(write_model(m, f, c)[0] == m[0]);
        assert(write_model(m, f, c).skip(1) =~= write_model(m.skip(1), f, c));
    }
}

/// A registered name is registered under exactly one record file.
proof fn lemma_remove_clears(m: Seq<EntryV>, f: Seq<char>)
    requires
        wf(m),
    ensures
        lookup(remove_model(m, f), f) is None,
    decreases m.len(),
{
    if m.len() > 0 {
        assert(forall|k: int| 0 <= k < m.skip(1).len() ==> m.skip(1)[k] == m[k + 1]);
        if m[0].name == f {
            assert(forall|k: int| 0 <= k < m.skip(1).len() ==> m.skip(1)[k].name != f);
            crate::store::lemma_lookup_none(m.skip(1), f);
        } else {
            assert(wf(m.skip(1)));
            lemma_remove_clears(m.skip(1), f);
            assert(remove_model(m, f)[0] == m[0]);
            assert(remove_model(m, f).skip(1) =~= remove_model(m.skip(1), f));
        }
    }
}

/// After `add` succeeds, `get` on the same name answers with the path
/// that was the working directory when `add` ran.
pub proof fn lemma_add_then_get(m: Seq<EntryV>, name: Seq<char>, cwd: Seq<u8>)
    requires
        lookup(m, record_file_name(name)) is None,
    ensures
        get_model(add_model(m, name, cwd).0, name) == Some(Ok::<Seq<u8>, Error>(cwd)),
{
    lemma_lookup_write(m, record_file_name(name), encode_spec(cwd));
    crate::codec::lemma_round_trip(cwd);
}

/// Adding a name twice fails the second time with `AlreadyExists` and
/// leaves the registry exactly as the first `add` left it.
pub proof fn lemma_add_twice(m: Seq<EntryV>, name: Seq<char>, path1: Seq<u8>, path2: Seq<u8>)
    ensures
        ({
            let first = add_model(m, name, path1);
            add_model(first.0, name, path2) == (first.0, Err::<(), Error>(Error::AlreadyExists))
        }),
{
    if lookup(m, record_file_name(name)) is Some {
    } else {
        lemma_lookup_write(m, record_file_name(name), encode_spec(path1));
    }
}

/// After `delete` succeeds, `get` on the same name answers that no such
/// workspace exists. (Deleting an unregistered name already fails with
/// `NotFound` by [`store::delete`]'s contract, leaving the registry
/// untouched.)
pub proof fn lemma_delete_then_get(m: Seq<EntryV>, name: Seq<char>)
    requires
        wf(m),
    ensures
        get_model(remove_model(m, record_file_name(name)), name) is None,
{
    lemma_remove_clears(m, record_file_name(name));
}

/// Whether two byte strings hold the same bytes.
pub fn bytes_eq(a: &Vec<u8>, b: &Vec<u8>) -> (r: bool)
    ensures
        r == (a@ == b@),
{
    if a.len() != b.len() {
        proof {
            assert(a@.len() != b@.len());
        }
        return false;
    }
    let n = a.len();
    let mut i: usize = 0;
    while i < n
        invariant
            i <= n,
            n == a@.len(),
            n == b@.len(),
            forall|k: int| 0 <= k < i ==> a@[k] == b@[k],
        decreases n - i,
    {
        if a[i] != b[i] {
            return false;
        }
        i = i + 1;
    }
    proof {
        assert(a@ =~= b@);
    }
    true
}

/// The names among the listing rows whose record decodes to `path`:
/// those `add` warns about before registering the same directory twice.
pub open spec fn matching_names(
    rows: Seq<(Option<String>, Result<Workspace, Error>)>,
    path: Seq<u8>,
) -> Seq<Seq<char>>
    decreases rows.len(),
{
    if rows.len() == 0 {
        Seq::empty()
    } else {
        (match rows[0].0 {
            Some(n) => match rows[0].1 {
                Ok(ws) => if ws.path@ == path {
                    seq![n@]
                } else {
                    Seq::<Seq<char>>::empty()
                },
                Err(_) => Seq::<Seq<char>>::empty(),
            },
            None => Seq::<Seq<char>>::empty(),
        }) + matching_names(rows.skip(1), path)
    }
}

/// One row more extends the matching names by that row's name, or by
/// nothing.
proof fn lemma_matching_names_push(
    rows: Seq<(Option<String>, Result<Workspace, Error>)>,
    row: (Option<String>, Result<Workspace, Error>),
    path: Seq<u8>,
)
    ensures
        matching_names(rows.push(row), path) == matching_names(rows, path) + (match row.0 {
            Some(n) => match row.1 {
                Ok(ws) => if ws.path@ == path {
                    seq![n@]
                } else {
                    Seq::<Seq<char>>::empty()
                },
                Err(_) => Seq::<Seq<char>>::empty(),
            },
            None => Seq::<Seq<char>>::empty(),
        }),
    decreases rows.len(),
{
    let tail: Seq<Seq<char>> = match row.0 {
        Some(n) => match row.1 {
            Ok(ws) => if ws.path@ == path {
                seq![n@]
            } else {
                Seq::<Seq<char>>::empty()
            },
            Err(_) => Seq::<Seq<char>>::empty(),
        },
        None => Seq::<Seq<char>>::empty(),
    };
    if rows.len() == 0 {
        assert(rows.push(row)[0] == row);
        assert(rows.push(row).skip(1) =~= Seq::<(Option<String>, Result<Workspace, Error>)>::empty());
        assert(matching_names(rows.push(row), path) == tail + matching_names(
            Seq::<(Option<String>, Result<Workspace, Error>)>::empty(),
            path,
        ));
        assert(matching_names(Seq::<(Option<String>, Result<Workspace, Error>)>::empty(), path)
            == Seq::<Seq<char>>::empty());
        assert(tail + Seq::<Seq<char>>::empty() =~= tail);
        assert(matching_names(rows, path) + tail =~= tail);
    } else {
        lemma_matching_names_push(rows.skip(1), row, path);
        assert(rows.push(row).skip(1) =~= rows.skip(1).push(row));
        assert(rows.push(row)[0] == rows[0]);
        let head: Seq<Seq<char>> = match rows[0].0 {
            Some(n) => match rows[0].1 {
                Ok(ws) => if ws.path@ == path {
                    seq![n@]
                } else {
                    Seq::<Seq<char>>::empty()
                },
                Err(_) => Seq::<Seq<char>>::empty(),
            },
            None => Seq::<Seq<char>>::empty(),
        };
        assert(matching_names(rows.push(row), path) == head + (matching_names(rows.skip(1), path)
            + tail));
        assert(head + (matching_names(rows.skip(1), path) + tail) =~= (head + matching_names(
            rows.skip(1),
            path,
        )) + tail);
    }
}

/// Collects from a listing the names of the workspaces already pointing
/// at `path`, in listing order.
pub fn same_path_names(
    rows: &Vec<(Option<String>, Result<Workspace, Error>)>,
    path: &Vec<u8>,
) -> (r: Vec<String>)
    ensures
        r@.map_values(|s: String| s@) == matching_names(rows@, path@),
{
    let n = rows.len();
    let mut out: Vec<String> = Vec::new();
    let mut i: usize = 0;
    proof {
        assert(rows@.take(0) =~= Seq::<(Option<String>, Result<Workspace, Error>)>::empty());
        assert(out@.map_values(|s: String| s@) =~= matching_names(rows@.take(0), path@));
    }
    while i < n
        invariant
            i <= n,
            n == rows@.len(),
            out@.map_values(|s: String| s@) == matching_names(rows@.take(i as int), path@),
        decreases n - i,
    {
        let ghost out0 = out@;
        let row = &rows[i];
        match (&row.0, &row.1) {
            (Some(name), Ok(ws)) => {
                if bytes_eq(&ws.path, path) {
                    out.push(name.clone());
                }
            },
            _ => {},
        }
        proof {
            lemma_matching_names_push(rows@.take(i as int), rows@[i as int], path@);
            assert(rows@.take(i as int).push(rows@[i as int]) =~= rows@.take(i + 1));
            assert(out@.map_values(|s: String| s@) =~= matching_names(rows@.take(i + 1), path@));
        }
        i = i + 1;
    }
    proof {
        assert(rows@.take(n as int) =~= rows@);
    }
    out
}

} // verus!
