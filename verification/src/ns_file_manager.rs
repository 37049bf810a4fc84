//! `NSFileManager`: the directories of a guest, and how it learns of failures of
//! the file system.
use crate::mem;
use crate::ns_array;
use crate::ns_string;
use crate::ns_string::{from_rust_string, get_static_str};
use crate::objc::{autorelease, Environment, HostObject, Id, Object, NIL};
use crate::string_encoding::StringView;
use crate::text::{chars_of, push_all, string_of};
use vstd::prelude::*;

verus! {

pub const NSApplicationDirectory: u32 = 1;

pub const NSLibraryDirectory: u32 = 5;

pub const NSDocumentDirectory: u32 = 9;

pub const NSCachesDirectory: u32 = 13;

pub const NSFileReadNoSuchFileError: i32 = 260;

pub const NSFileWriteUnknownError: i32 = 512;

pub const NSFileWriteNoPermissionError: i32 = 513;

/// How the file system can fail. The last three are failures of the host.
#[derive(Clone, Copy, Debug, PartialEq, Eq, Structural)]
pub enum FsError {
    DoesNotExist,
    NonexistentParentDir,
    AccessDenied,
    ReadonlyParentDir,
    Other,
    HostNotFound,
    HostPermissionDenied,
    HostOther,
}

/// The code of the error that stands for a failure.
pub open spec fn error_code(err: FsError) -> i32 {
    match err {
        FsError::DoesNotExist | FsError::NonexistentParentDir | FsError::HostNotFound =>
            NSFileReadNoSuchFileError,
        FsError::AccessDenied | FsError::ReadonlyParentDir | FsError::HostPermissionDenied =>
            NSFileWriteNoPermissionError,
        _ => NSFileWriteUnknownError,
    }
}

/// The code by which the guest knows a failure.
pub fn cocoa_file_error_code(err: FsError) -> (code: i32)
    ensures
        code == error_code(err),
{
    match err {
        FsError::DoesNotExist | FsError::NonexistentParentDir | FsError::HostNotFound =>
            NSFileReadNoSuchFileError,
        FsError::AccessDenied | FsError::ReadonlyParentDir | FsError::HostPermissionDenied =>
            NSFileWriteNoPermissionError,
        _ => NSFileWriteUnknownError,
    }
}

/// The code of a failure to read the source of a copy.
pub fn copy_source_error_code(source_exists: bool) -> (code: i32)
    ensures
        code == if source_exists {
            NSFileWriteUnknownError
        } else {
            NSFileReadNoSuchFileError
        },
{
    if source_exists {
        NSFileWriteUnknownError
    } else {
        NSFileReadNoSuchFileError
    }
}

/// The guest has been told of a failure: there is an error object in the current
/// pool, and its reference has been written.
pub open spec fn error_written(
    before: Environment,
    after: Environment,
    strings: ns_string::State,
    after_strings: ns_string::State,
    out_error: u32,
    code: i32,
) -> bool {
    exists|mid: Environment, domain: Id|
        {
            let error = mid.objc.objects@.len();
            &&& #[trigger] ns_string::static_str(
                before,
                mid,
                strings,
                after_strings,
                "NSCocoaErrorDomain"@,
                domain,
            )
            &&& after.objc.objects@ == mid.objc.objects@.push(
                Object { retain_count: Some(1), host: HostObject::NSError { domain, code } },
            )
            &&& after.mem.is_written(
                &mid.mem,
                out_error as int,
                mem::le_bytes(error as int, 4),
            )
            &&& after.autorelease_pool@ == mid.autorelease_pool@.push(error as u32)
        }
}

/// Tells the guest of a failure, if it has given an address for that.
pub fn write_cocoa_file_error(
    env: &mut Environment,
    strings: &mut ns_string::State,
    out_error: u32,
    code: i32,
)
    requires
        old(env).wf(),
        old(env).has_room(2, 0),
        old(strings).wf(old(env).objc.objects@),
        out_error == 0 || old(env).mem.mapped(out_error as int, 4),
    ensures
        final(env).wf(),
        out_error == 0 ==> *final(env) == *old(env) && *final(strings) == *old(strings),
        out_error != 0 ==> error_written(
            *old(env),
            *final(env),
            *old(strings),
            *final(strings),
            out_error,
            code,
        ),
{
    if out_error == 0 {
        return;
    }
    let domain: Id = get_static_str(env, strings, "NSCocoaErrorDomain");
    let ghost mid = *env;
    let error: Id = env.objc.alloc_object(HostObject::NSError { domain, code });
    autorelease(env, error);
    env.mem.write_u32(out_error, error);
    assert(ns_string::static_str(
        *old(env),
        mid,
        *old(strings),
        *strings,
        "NSCocoaErrorDomain"@,
        domain,
    ));
}

/// A path within a directory.
pub open spec fn joined(dir: Seq<char>, name: Seq<char>) -> Seq<char> {
    dir + seq!['/'] + name
}

fn join(dir: &str, name: &str) -> (path: String)
    ensures
        path@ == joined(dir@, name@),
{
    let mut out = chars_of(dir);
    out.push('/');
    push_all(&mut out, &chars_of(name));
    assert(out@ =~= joined(dir@, name@));
    string_of(&out)
}

/// The path of one of the known directories.
pub open spec fn directory_path(
    home: Seq<char>,
    applications: Seq<char>,
    directory: u32,
) -> Seq<char> {
    if directory == NSApplicationDirectory {
        applications
    } else if directory == NSDocumentDirectory {
        joined(home, "Documents"@)
    } else if directory == NSLibraryDirectory {
        joined(home, "Library"@)
    } else {
        joined(joined(home, "Library"@), "Caches"@)
    }
}

/// The path of one of the known directories, in an array in the current pool.
pub fn NSSearchPathForDirectoriesInDomains(
    env: &mut Environment,
    home: &str,
    applications: &str,
    directory: u32,
) -> (id: Id)
    requires
        old(env).wf(),
        old(env).has_room(2, 0),
        directory == NSApplicationDirectory || directory == NSDocumentDirectory || directory
            == NSLibraryDirectory || directory == NSCachesDirectory,
    ensures
        final(env).wf(),
        id == old(env).objc.objects@.len() + 1,
        final(env).objc.objects@.len() == old(env).objc.objects@.len() + 2,
        ns_string::string_added(
            old(env).objc.objects@,
            final(env).objc.objects@.drop_last(),
            StringView::Utf8(directory_path(home@, applications@, directory)),
            false,
            Some(1),
        ),
        final(env).objc.objects@.last().retain_count == Some(1u32),
        ns_array::holds_array(
            final(env).objc.objects@.last(),
            seq![old(env).objc.objects@.len() as u32],
            false,
            true,
        ),
        final(env).mem == old(env).mem,
        final(env).autorelease_pool@ == old(env).autorelease_pool@.push(id),
{
    let path = if directory == NSApplicationDirectory {
        applications.to_owned()
    } else if directory == NSDocumentDirectory {
        join(home, "Documents")
    } else if directory == NSLibraryDirectory {
        join(home, "Library")
    } else {
        join(join(home, "Library").as_str(), "Caches")
    };
    let dir: Id = from_rust_string(env, path);
    let mut list: Vec<Id> = Vec::new();
    list.push(dir);
    assert(list@ =~= seq![dir]);
    let array: Id = ns_array::from_vec(env, list);
    autorelease(env, array)
}

/// The guest's home directory, as a string in the current pool.
pub fn NSHomeDirectory(env: &mut Environment, home: &str) -> (id: Id)
    requires
        old(env).wf(),
        old(env).has_room(1, 0),
    ensures
        final(env).wf(),
        ns_string::pooled_string(*old(env), *final(env), id, StringView::Utf8(home@)),
{
    let dir: Id = from_rust_string(env, home.to_owned());
    autorelease(env, dir)
}

/// The guest's directory for temporary files, as a string in the current pool.
pub fn NSTemporaryDirectory(env: &mut Environment, home: &str) -> (id: Id)
    requires
        old(env).wf(),
        old(env).has_room(1, 0),
    ensures
        final(env).wf(),
        ns_string::pooled_string(
            *old(env),
            *final(env),
            id,
            StringView::Utf8(joined(home@, "tmp"@)),
        ),
{
    let dir: Id = from_rust_string(env, join(home, "tmp"));
    autorelease(env, dir)
}

/// The manager that all parts of a guest share.
pub struct State {
    pub default_manager: Option<Id>,
}

/// The shared manager, which is made when it is first asked for. `class` is the
/// class that makes it.
pub fn default_manager(env: &mut Environment, state: &mut State, class: Id) -> (id: Id)
    requires
        old(env).wf(),
        old(env).has_room(1, 0),
    ensures
        final(env).wf(),
        final(state).default_manager == Some(id),
        match old(state).default_manager {
            Some(existing) => id == existing && *final(env) == *old(env),
            None => {
                &&& id == old(env).objc.objects@.len()
                &&& final(env).objc.objects@ == old(env).objc.objects@.push(
                    Object { retain_count: Some(1), host: HostObject::Instance(class) },
                )
                &&& final(env).mem == old(env).mem
                &&& final(env).autorelease_pool == old(env).autorelease_pool
            },
        },
{
    match state.default_manager {
        Some(existing) => existing,
        None => {
            let new: Id = env.objc.alloc_object(HostObject::Instance(class));
            state.default_manager = Some(new);
            new
        },
    }
}

/// Whether something exists at a path, and whether it is a directory, which is
/// written where an address is given. Nothing exists at no path.
pub fn file_exists_at_path(
    env: &mut Environment,
    path: Id,
    found: bool,
    is_file: bool,
    is_dir: u32,
) -> (r: bool)
    requires
        old(env).wf(),
        is_dir == 0 || old(env).mem.mapped(is_dir as int, 1),
    ensures
        final(env).wf(),
        r == (path != NIL && found),
        is_dir == 0 ==> *final(env) == *old(env),
        is_dir != 0 ==> final(env).mem.is_written(
            &old(env).mem,
            is_dir as int,
            seq![
                if path != NIL && !is_file {
                    1u8
                } else {
                    0u8
                },
            ],
        ),
        final(env).objc == old(env).objc,
        final(env).autorelease_pool == old(env).autorelease_pool,
{
    let directory: bool = path != NIL && !is_file;
    if is_dir != 0 {
        let mut byte: Vec<u8> = Vec::new();
        byte.push(
            if directory {
                1
            } else {
                0
            },
        );
        assert(byte@ =~= seq![
            if path != NIL && !is_file {
                1u8
            } else {
                0u8
            },
        ]);
        env.mem.write_bytes(is_dir, &byte);
    }
    path != NIL && found
}

/// Whether something can be deleted: a file if it can be written, a directory if
/// all that it holds can be deleted.
pub fn is_deletable(is_file: bool, writable: bool, entries: &Vec<bool>) -> (deletable: bool)
    ensures
        deletable == if is_file {
            writable
        } else {
            !entries@.contains(false)
        },
{
    if is_file {
        return writable;
    }
    let mut i: usize = 0;
    while i < entries.len()
        invariant
            i <= entries@.len(),
            !is_file,
            forall|j: int| 0 <= j < i ==> #[trigger] entries@[j],
        decreases entries@.len() - i,
    {
        if !entries[i] {
            assert(entries@[i as int] == false);
            return false;
        }
        i = i + 1;
    }
    true
}

/// What kind of thing is at a path.
#[derive(Clone, Copy, Debug, PartialEq, Eq, Structural)]
pub enum FileType {
    Regular,
    Directory,
    Unknown,
}

/// What the guest learns of a file: when it was changed, in seconds since 1970, its
/// size and its kind.
#[derive(Clone, Copy, Debug, PartialEq, Eq, Structural)]
pub struct FileAttributes {
    pub modified: u64,
    pub size: u64,
    pub kind: FileType,
}

/// What the guest learns of a file; nothing if it does not exist.
pub fn file_attributes(found: bool, modified: u64, size: u64, is_file: bool, is_dir: bool) -> (attrs:
    Option<FileAttributes>)
    ensures
        attrs is Some == found,
        attrs matches Some(a) ==> a.modified == modified && a.size == size && a.kind
            == if is_file {
            FileType::Regular
        } else if is_dir {
            FileType::Directory
        } else {
            FileType::Unknown
        },
{
    if !found {
        return None;
    }
    let kind: FileType = if is_file {
        FileType::Regular
    } else if is_dir {
        FileType::Directory
    } else {
        FileType::Unknown
    };
    Some(FileAttributes { modified, size, kind })
}

/// A file that is missing, or whose directory is, has the code 260, one that may not be
/// touched 513, and any other failure 512.
pub proof fn law_error_codes(err: FsError)
    ensures
        error_code(err) == 260 <==> err is DoesNotExist || err is NonexistentParentDir || err
            is HostNotFound,
        error_code(err) == 513 <==> err is AccessDenied || err is ReadonlyParentDir || err
            is HostPermissionDenied,
        error_code(err) == 512 <==> err is Other || err is HostOther,
{
}

/// Applications have a directory of their own; documents, the library and the caches
/// within it are in the home directory.
pub proof fn law_directories(home: Seq<char>, applications: Seq<char>)
    ensures
        directory_path(home, applications, 1) == applications,
        directory_path(home, applications, 9) == home + seq!['/'] + "Documents"@,
        directory_path(home, applications, 5) == home + seq!['/'] + "Library"@,
        directory_path(home, applications, 13) == home + seq!['/'] + "Library"@ + seq!['/']
            + "Caches"@,
{
}

} // verus!
