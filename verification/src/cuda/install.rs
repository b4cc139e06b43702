//! Where a CUDA installation is, and what its devices can read in place.

use vstd::prelude::*;

verus! {

/// What a path is written for.
#[derive(Clone, Copy, Debug, PartialEq, Eq, Structural)]
pub enum Platform {
    Linux,
    Windows,
    Other,
}

/// What was found on disk, where a distribution or a user may have put an installation.
#[derive(Clone, Copy, Debug, PartialEq, Eq)]
pub struct Found {
    /// Whether `/usr/local/cuda` is there.
    pub usr_local_cuda: bool,
    /// Whether `/opt/cuda` is there.
    pub opt_cuda: bool,
    /// Whether `/usr/bin/nvcc` is there.
    pub usr_bin_nvcc: bool,
}

/// Where the installation is. The environment decides where it says anything.
pub open spec fn installed_at(
    variable: Option<Seq<char>>,
    platform: Platform,
    found: Found,
) -> Option<Seq<char>> {
    match variable {
        Some(path) => Some(path),
        None => match platform {
            Platform::Linux => if found.usr_local_cuda {
                Some("/usr/local/cuda"@)
            } else if found.opt_cuda {
                Some("/opt/cuda"@)
            } else if found.usr_bin_nvcc {
                Some("/usr"@)
            } else {
                None
            },
            Platform::Windows => Some("C:/Program Files/NVIDIA GPU Computing Toolkit/CUDA/"@),
            Platform::Other => None,
        },
    }
}

/// The text in a string, if there is one.
pub open spec fn text_of(value: Option<String>) -> Option<Seq<char>> {
    match value {
        Some(value) => Some(value@),
        None => None,
    }
}

/// Where the installation is, by the `CUDA_PATH` variable or by what was found.
pub fn cuda_path(variable: Option<&str>, platform: Platform, found: Found) -> (r: Option<String>)
    ensures
        text_of(r) == installed_at(
            match variable {
                Some(path) => Some(path@),
                None => None,
            },
            platform,
            found,
        ),
{
    match variable {
        Some(path) => {
            return Some(path.to_owned());
        },
        None => {},
    }
    match platform {
        Platform::Linux => {
            if found.usr_local_cuda {
                Some("/usr/local/cuda".to_owned())
            } else if found.opt_cuda {
                Some("/opt/cuda".to_owned())
            } else if found.usr_bin_nvcc {
                // The compiler may have been installed within the user path.
                Some("/usr".to_owned())
            } else {
                None
            }
        },
        Platform::Windows => {
            Some("C:/Program Files/NVIDIA GPU Computing Toolkit/CUDA/".to_owned())
        },
        Platform::Other => None,
    }
}

/// Whether a character separates the parts of a path.
pub open spec fn separates(platform: Platform, c: char) -> bool {
    c == '/' || (platform == Platform::Windows && c == '\\')
}

/// Whether a character is a letter that names a drive.
pub open spec fn is_letter(c: char) -> bool {
    ('a' <= c && c <= 'z') || ('A' <= c && c <= 'Z')
}

/// Whether a path is the name of a drive and nothing else.
pub open spec fn is_drive(platform: Platform, base: Seq<char>) -> bool {
    platform == Platform::Windows && base.len() == 2 && is_letter(base[0]) && base[1] == ':'
}

/// A path with one more part. A separator goes between unless the path ends in one, is empty,
/// or is a drive alone.
pub open spec fn joined(platform: Platform, base: Seq<char>, part: Seq<char>) -> Seq<char> {
    if base.len() == 0 || separates(platform, base.last()) || is_drive(platform, base) {
        base + part
    } else if platform == Platform::Windows {
        base + "\\"@ + part
    } else {
        base + "/"@ + part
    }
}

/// A path with one more part.
pub fn join(platform: Platform, base: &str, part: &str) -> (r: String)
    ensures
        r@ == joined(platform, base@, part@),
{
    let n: usize = base.unicode_len();
    let mut path: String = base.to_owned();
    let windows: bool = match platform {
        Platform::Windows => true,
        _ => false,
    };
    if n > 0 {
        let last: char = base.get_char(n - 1);
        let first: char = base.get_char(0);
        let letter: bool = ('a' <= first && first <= 'z') || ('A' <= first && first <= 'Z');
        let drive: bool = windows && n == 2 && letter && last == ':';
        if !(last == '/' || (windows && last == '\\') || drive) {
            if windows {
                path.append("\\");
            } else {
                path.append("/");
            }
        }
    }
    path.append(part);
    path
}

/// Where the headers of an installation are.
pub fn include_path(platform: Platform, cuda_path: &str) -> (r: String)
    ensures
        r@ == joined(platform, cuda_path@, "include"@),
{
    join(platform, cuda_path, "include")
}

/// Where the headers of the core compute libraries of an installation are.
pub fn cccl_include_path(platform: Platform, cuda_path: &str) -> (r: String)
    ensures
        r@ == joined(platform, joined(platform, cuda_path@, "include"@), "cccl"@),
{
    let headers: String = include_path(platform, cuda_path);
    join(platform, headers.as_str(), "cccl")
}

/// How many devices the cache of answers has room for.
pub const CACHED_DEVICES: usize = 16;

/// Which devices were found to read host memory in place. The answer is a property of the
/// device and cannot change during a run.
#[derive(Clone, Copy, Debug, PartialEq, Eq)]
pub struct ZeroCopyCache {
    pub answers: [Option<bool>; CACHED_DEVICES],
}

impl Default for ZeroCopyCache {
    fn default() -> (r: Self)
        ensures
            forall|i: int| 0 <= i < CACHED_DEVICES ==> (#[trigger] r.answers@[i]) is None,
    {
        ZeroCopyCache {
            answers: [
                None,
                None,
                None,
                None,
                None,
                None,
                None,
                None,
                None,
                None,
                None,
                None,
                None,
                None,
                None,
                None,
            ],
        }
    }
}

impl ZeroCopyCache {
    /// The answer for a device, where it was asked for before and there was room.
    pub open spec fn known(self, device_index: int) -> Option<bool> {
        if 0 <= device_index < CACHED_DEVICES {
            self.answers@[device_index]
        } else {
            None
        }
    }

    /// The answer for a device, where it was asked for before and there was room.
    pub fn lookup(&self, device_index: usize) -> (r: Option<bool>)
        ensures
            r == self.known(device_index as int),
    {
        if device_index < CACHED_DEVICES {
            self.answers[device_index]
        } else {
            None
        }
    }

    /// Keeps the answer for a device, where there is room.
    pub fn store(&mut self, device_index: usize, answer: bool)
        ensures
            device_index < CACHED_DEVICES ==> final(self).answers@ == old(self).answers@.update(
                device_index as int,
                Some(answer),
            ),
            device_index >= CACHED_DEVICES ==> *final(self) == *old(self),
    {
        if device_index < CACHED_DEVICES {
            self.answers[device_index] = Some(answer);
        }
    }
}

/// What was kept for a device is found again, and no other answer changes.
pub proof fn law_kept_answers_are_found(
    before: ZeroCopyCache,
    after: ZeroCopyCache,
    device_index: int,
    answer: bool,
    other: int,
)
    requires
        0 <= device_index < CACHED_DEVICES,
        after.answers@ == before.answers@.update(device_index, Some(answer)),
        other != device_index,
    ensures
        after.known(device_index) == Some(answer),
        after.known(other) == before.known(other),
{
}

/// Whether a device reads ordinary host memory from a kernel. Its attributes are asked for
/// only where the answer is not kept, and the answer is kept where there is room.
pub fn supports_zero_copy_host<F: FnOnce() -> (Option<i32>, Option<i32>)>(
    cache: &mut ZeroCopyCache,
    device_index: usize,
    ask: F,
) -> (r: bool)
    requires
        old(cache).known(device_index as int) is None ==> ask.requires(()),
    ensures
        match old(cache).known(device_index as int) {
            Some(answer) => r == answer && *final(cache) == *old(cache),
            None => {
                &&& exists|attributes: (Option<i32>, Option<i32>)| #[trigger]
                    ask.ensures((), attributes) && r == walks_host_tables(
                        attributes.0,
                        attributes.1,
                    )
                &&& if device_index < CACHED_DEVICES {
                    final(cache).answers@ == old(cache).answers@.update(
                        device_index as int,
                        Some(r),
                    )
                } else {
                    *final(cache) == *old(cache)
                }
            },
        },
{
    match cache.lookup(device_index) {
        Some(answer) => answer,
        None => {
            let attributes: (Option<i32>, Option<i32>) = ask();
            let answer: bool = reads_host_memory(attributes.0, attributes.1);
            cache.store(device_index, answer);
            answer
        },
    }
}

/// Whether two attributes of a device say that it walks the host's page tables.
pub open spec fn walks_host_tables(pageable: Option<i32>, host_page_tables: Option<i32>) -> bool {
    &&& pageable is Some && pageable->0 != 0
    &&& host_page_tables is Some && host_page_tables->0 != 0
}

/// Whether a device reads ordinary host memory from a kernel, by two of its attributes.
/// Access through a translation of the driver's is not enough: the device must walk the
/// host's page tables. A device that does not answer does not.
pub fn reads_host_memory(pageable: Option<i32>, host_page_tables: Option<i32>) -> (r: bool)
    ensures
        r == walks_host_tables(pageable, host_page_tables),
{
    match (pageable, host_page_tables) {
        (Some(pageable), Some(host_page_tables)) => pageable != 0 && host_page_tables != 0,
        _ => false,
    }
}

} // verus!
