//! Options for opening a file: which accesses to ask for and what to do when
//! the file exists or not, with the flags they give on Unix and Windows.

use vstd::prelude::*;

verus! {

/// Options for opening a file, set one by one on a builder.
#[derive(Clone, Debug)]
pub struct OpenOptions {
    read: bool,
    write: bool,
    append: bool,
    truncate: bool,
    create: bool,
    create_new: bool,
    mode: u32,
}

/// The values of the `libc` open flags on the platform.
#[derive(Clone, Copy, Debug)]
pub struct OpenFlagValues {
    pub rdonly: i32,
    pub wronly: i32,
    pub rdwr: i32,
    pub append: i32,
    pub creat: i32,
    pub excl: i32,
    pub trunc: i32,
}

/// Windows `GENERIC_READ`.
pub const GENERIC_READ: u32 = 0x80000000;

/// Windows `GENERIC_WRITE`.
pub const GENERIC_WRITE: u32 = 0x40000000;

/// Windows `FILE_APPEND_DATA`.
pub const FILE_APPEND_DATA: u32 = 0x0004;

/// Windows `OPEN_EXISTING`.
pub const OPEN_EXISTING: u32 = 3;

/// Windows `CREATE_NEW`.
pub const CREATE_NEW: u32 = 1;

/// Windows `CREATE_ALWAYS`: creates the file or overwrites it.
pub const CREATE_ALWAYS: u32 = 2;

/// Windows `OPEN_ALWAYS`: opens the file or creates it.
pub const OPEN_ALWAYS: u32 = 4;

/// Windows `TRUNCATE_EXISTING`.
pub const TRUNCATE_EXISTING: u32 = 5;

/// The Unix flags of a set of options, given the platform's flag values: one
/// access mode (read-only for reading alone, write-only for writing alone,
/// write-only with append for appending, read-write otherwise), then create,
/// exclusive creation with create, and truncation as asked.
pub open spec fn unix_flags_of(o: OpenOptions, v: OpenFlagValues) -> i32 {
    let access = if o.spec_read() && !o.spec_write() && !o.spec_append() {
        v.rdonly
    } else if !o.spec_read() && o.spec_write() && !o.spec_append() {
        v.wronly
    } else if o.spec_append() {
        v.wronly | v.append
    } else {
        v.rdwr
    };
    let with_create = if o.spec_create() {
        access | v.creat
    } else {
        access
    };
    let with_new = if o.spec_create_new() {
        with_create | (v.excl | v.creat)
    } else {
        with_create
    };
    if o.spec_truncate() {
        with_new | v.trunc
    } else {
        with_new
    }
}

/// Or-ing more bits onto a value keeps the bits it already has.
proof fn lemma_or_keeps(a: i32, b: i32, c: i32)
    by (bit_vector)
    ensures
        ((a | b) & b) == b,
        (((a | b) | c) & b) == b,
        ((((a | b) | c) | c) & b) == b,
{
}

/// The Unix flags hold every flag that the options ask for, each on its own:
/// truncation gives `O_TRUNC` whether or not the file may be created;
/// creation gives `O_CREAT`; exclusive creation gives `O_EXCL` and `O_CREAT`;
/// appending gives `O_WRONLY` and `O_APPEND`; writing alone gives
/// `O_WRONLY`; reading and writing give `O_RDWR`.
pub proof fn law_unix_flags_hold_what_is_asked(o: OpenOptions, v: OpenFlagValues)
    ensures
        o.spec_truncate() ==> (unix_flags_of(o, v) & v.trunc) == v.trunc,
        o.spec_create() ==> (unix_flags_of(o, v) & v.creat) == v.creat,
        o.spec_create_new() ==> (unix_flags_of(o, v) & v.excl) == v.excl && (unix_flags_of(o, v) & v.creat)
            == v.creat,
        o.spec_append() ==> (unix_flags_of(o, v) & v.wronly) == v.wronly && (unix_flags_of(o, v) & v.append)
            == v.append,
        !o.spec_read() && o.spec_write() && !o.spec_append() ==> (unix_flags_of(o, v) & v.wronly) == v.wronly,
        o.spec_read() && o.spec_write() && !o.spec_append() ==> (unix_flags_of(o, v) & v.rdwr) == v.rdwr,
{
    let access = if o.spec_read() && !o.spec_write() && !o.spec_append() {
        v.rdonly
    } else if !o.spec_read() && o.spec_write() && !o.spec_append() {
        v.wronly
    } else if o.spec_append() {
        v.wronly | v.append
    } else {
        v.rdwr
    };
    let with_create = if o.spec_create() {
        access | v.creat
    } else {
        access
    };
    let with_new = if o.spec_create_new() {
        with_create | (v.excl | v.creat)
    } else {
        with_create
    };
    let f = unix_flags_of(o, v);
    let t = if o.spec_truncate() {
        v.trunc
    } else {
        0i32
    };
    assert(f == with_new | t) by {
        if !o.spec_truncate() {
            assert((with_new | 0i32) == with_new) by (bit_vector);
        }
    }
    if o.spec_truncate() {
        lemma_or_keeps(with_new, v.trunc, 0);
    }
    if o.spec_create() {
        lemma_or_keeps(access, v.creat, 0);
        lemma_keep_through(access | v.creat, v.creat, if o.spec_create_new() { v.excl | v.creat } else { 0i32 }, t);
        assert(with_new == (access | v.creat) | (if o.spec_create_new() { v.excl | v.creat } else { 0i32 })) by {
            if !o.spec_create_new() {
                let z = access | v.creat;
                assert((z | 0i32) == z) by (bit_vector);
            }
        }
    }
    if o.spec_create_new() {
        lemma_new_bits(with_create, v.excl, v.creat, t);
    }
    if o.spec_append() || (!o.spec_read() && o.spec_write()) || (o.spec_read() && o.spec_write()) {
        let c = if o.spec_create() { v.creat } else { 0i32 };
        let n = if o.spec_create_new() { v.excl | v.creat } else { 0i32 };
        assert(with_create == access | c) by {
            if !o.spec_create() {
                assert((access | 0i32) == access) by (bit_vector);
            }
        }
        assert(with_new == with_create | n) by {
            if !o.spec_create_new() {
                assert((with_create | 0i32) == with_create) by (bit_vector);
            }
        }
        lemma_access_kept(access, c, n, t, v.wronly, v.append, v.rdwr);
    }
}

/// A bit of `x` stays through two more or-ings.
proof fn lemma_keep_through(x: i32, y: i32, z: i32, w: i32)
    by (bit_vector)
    requires
        (x & y) == y,
    ensures
        (((x | z) | w) & y) == y,
{
}

/// The bits of exclusive creation stay through truncation.
proof fn lemma_new_bits(a: i32, e: i32, c: i32, t: i32)
    by (bit_vector)
    ensures
        (((a | (e | c)) | t) & e) == e,
        (((a | (e | c)) | t) & c) == c,
{
}

/// The bits of the access mode stay through creation, exclusive creation and
/// truncation.
proof fn lemma_access_kept(access: i32, c: i32, n: i32, t: i32, wronly: i32, append: i32, rdwr: i32)
    by (bit_vector)
    ensures
        access == (wronly | append) ==> ((((access | c) | n) | t) & wronly) == wronly && ((((access | c) | n) | t) & append) == append,
        access == wronly ==> ((((access | c) | n) | t) & wronly) == wronly,
        access == rdwr ==> ((((access | c) | n) | t) & rdwr) == rdwr,
{
}

/// The Windows desired access of a set of options: read, write and append
/// access as asked.
pub open spec fn windows_access_of(o: OpenOptions) -> u32 {
    let r = if o.spec_read() {
        GENERIC_READ
    } else {
        0
    };
    let w = if o.spec_write() {
        r | GENERIC_WRITE
    } else {
        r
    };
    if o.spec_append() {
        w | FILE_APPEND_DATA
    } else {
        w
    }
}

/// The Windows creation disposition of a set of options: a new file for
/// `create_new`; with `create`, overwrite when truncating, else open or
/// create; truncate an existing file for `truncate` alone; else open an
/// existing file.
pub open spec fn windows_disposition_of(o: OpenOptions) -> u32 {
    if o.spec_create_new() {
        CREATE_NEW
    } else if o.spec_create() {
        if o.spec_truncate() {
            CREATE_ALWAYS
        } else {
            OPEN_ALWAYS
        }
    } else if o.spec_truncate() {
        TRUNCATE_EXISTING
    } else {
        OPEN_EXISTING
    }
}

impl OpenOptions {
    /// Whether reading is asked for.
    pub closed spec fn spec_read(self) -> bool {
        self.read
    }

    /// Whether writing is asked for.
    pub closed spec fn spec_write(self) -> bool {
        self.write
    }

    /// Whether appending is asked for.
    pub closed spec fn spec_append(self) -> bool {
        self.append
    }

    /// Whether truncation is asked for.
    pub closed spec fn spec_truncate(self) -> bool {
        self.truncate
    }

    /// Whether creation is asked for.
    pub closed spec fn spec_create(self) -> bool {
        self.create
    }

    /// Whether the file must be new.
    pub closed spec fn spec_create_new(self) -> bool {
        self.create_new
    }

    /// The permission bits for a created file.
    pub closed spec fn spec_mode(self) -> u32 {
        self.mode
    }

    /// The permission bits for a created file.
    pub fn mode_bits(&self) -> (r: u32)
        ensures
            r == self.spec_mode(),
    {
        self.mode
    }

    /// Options that ask for nothing, with permission bits `0o666`.
    pub fn new() -> (r: Self)
        ensures
            !r.spec_read(),
            !r.spec_write(),
            !r.spec_append(),
            !r.spec_truncate(),
            !r.spec_create(),
            !r.spec_create_new(),
            r.spec_mode() == 0o666,
    {
        OpenOptions {
            read: false,
            write: false,
            append: false,
            truncate: false,
            create: false,
            create_new: false,
            mode: 0o666,
        }
    }
}

impl OpenOptions {
    /// Asks for reading.
    pub fn read(&mut self, read: bool) -> (r: &mut Self)
        ensures
            r.spec_read() == read,
            r.spec_write() == old(self).spec_write(),
            r.spec_append() == old(self).spec_append(),
            r.spec_truncate() == old(self).spec_truncate(),
            r.spec_create() == old(self).spec_create(),
            r.spec_create_new() == old(self).spec_create_new(),
            r.spec_mode() == old(self).spec_mode(),
            *final(self) == *final(r),
    {
        self.read = read;
        self
    }

    /// Asks for writing.
    pub fn write(&mut self, write: bool) -> (r: &mut Self)
        ensures
            r.spec_write() == write,
            r.spec_read() == old(self).spec_read(),
            r.spec_append() == old(self).spec_append(),
            r.spec_truncate() == old(self).spec_truncate(),
            r.spec_create() == old(self).spec_create(),
            r.spec_create_new() == old(self).spec_create_new(),
            r.spec_mode() == old(self).spec_mode(),
            *final(self) == *final(r),
    {
        self.write = write;
        self
    }

    /// Asks for appending.
    pub fn append(&mut self, append: bool) -> (r: &mut Self)
        ensures
            r.spec_append() == append,
            r.spec_read() == old(self).spec_read(),
            r.spec_write() == old(self).spec_write(),
            r.spec_truncate() == old(self).spec_truncate(),
            r.spec_create() == old(self).spec_create(),
            r.spec_create_new() == old(self).spec_create_new(),
            r.spec_mode() == old(self).spec_mode(),
            *final(self) == *final(r),
    {
        self.append = append;
        self
    }

    /// Asks for truncating an existing file.
    pub fn truncate(&mut self, truncate: bool) -> (r: &mut Self)
        ensures
            r.spec_truncate() == truncate,
            r.spec_read() == old(self).spec_read(),
            r.spec_write() == old(self).spec_write(),
            r.spec_append() == old(self).spec_append(),
            r.spec_create() == old(self).spec_create(),
            r.spec_create_new() == old(self).spec_create_new(),
            r.spec_mode() == old(self).spec_mode(),
            *final(self) == *final(r),
    {
        self.truncate = truncate;
        self
    }

    /// Asks for creating the file if it does not exist.
    pub fn create(&mut self, create: bool) -> (r: &mut Self)
        ensures
            r.spec_create() == create,
            r.spec_read() == old(self).spec_read(),
            r.spec_write() == old(self).spec_write(),
            r.spec_append() == old(self).spec_append(),
            r.spec_truncate() == old(self).spec_truncate(),
            r.spec_create_new() == old(self).spec_create_new(),
            r.spec_mode() == old(self).spec_mode(),
            *final(self) == *final(r),
    {
        self.create = create;
        self
    }

    /// Asks for creating the file, failing if it exists.
    pub fn create_new(&mut self, create_new: bool) -> (r: &mut Self)
        ensures
            r.spec_create_new() == create_new,
            r.spec_read() == old(self).spec_read(),
            r.spec_write() == old(self).spec_write(),
            r.spec_append() == old(self).spec_append(),
            r.spec_truncate() == old(self).spec_truncate(),
            r.spec_create() == old(self).spec_create(),
            r.spec_mode() == old(self).spec_mode(),
            *final(self) == *final(r),
    {
        self.create_new = create_new;
        self
    }

    /// Sets the permission bits for a created file.
    pub fn mode(&mut self, mode: u32) -> (r: &mut Self)
        ensures
            r.spec_mode() == mode,
            r.spec_read() == old(self).spec_read(),
            r.spec_write() == old(self).spec_write(),
            r.spec_append() == old(self).spec_append(),
            r.spec_truncate() == old(self).spec_truncate(),
            r.spec_create() == old(self).spec_create(),
            r.spec_create_new() == old(self).spec_create_new(),
            *final(self) == *final(r),
    {
        self.mode = mode;
        self
    }
}

/// Reads `libc::O_RDONLY`, whose value depends on the platform (0 on most,
/// other values on a few); nothing is claimed of it.
#[verifier::external_body]
fn libc_o_rdonly() -> i32 {
    libc::O_RDONLY
}

/// Reads `libc::O_WRONLY`. Claimed: it is not 0, as in every definition in
/// the `libc` source; its value otherwise depends on the platform.
#[verifier::external_body]
fn libc_o_wronly() -> (r: i32)
    ensures
        r != 0,
{
    libc::O_WRONLY
}

/// Reads `libc::O_RDWR`. Claimed: it is not 0, as in every definition in the
/// `libc` source; its value otherwise depends on the platform.
#[verifier::external_body]
fn libc_o_rdwr() -> (r: i32)
    ensures
        r != 0,
{
    libc::O_RDWR
}

/// Reads `libc::O_APPEND`. Claimed: it is not 0, as in every definition in
/// the `libc` source; its value otherwise depends on the platform.
#[verifier::external_body]
fn libc_o_append() -> (r: i32)
    ensures
        r != 0,
{
    libc::O_APPEND
}

/// Reads `libc::O_CREAT`. Claimed: it is not 0, as in every definition in
/// the `libc` source; its value otherwise depends on the platform.
#[verifier::external_body]
fn libc_o_creat() -> (r: i32)
    ensures
        r != 0,
{
    libc::O_CREAT
}

/// Reads `libc::O_EXCL`. Claimed: it is not 0, as in every definition in the
/// `libc` source; its value otherwise depends on the platform.
#[verifier::external_body]
fn libc_o_excl() -> (r: i32)
    ensures
        r != 0,
{
    libc::O_EXCL
}

/// Reads `libc::O_TRUNC`. Claimed: it is not 0, as in every definition in
/// the `libc` source; its value otherwise depends on the platform.
#[verifier::external_body]
fn libc_o_trunc() -> (r: i32)
    ensures
        r != 0,
{
    libc::O_TRUNC
}

/// The platform's values of the `libc` open flags: every flag but the
/// read-only access mode is a value other than 0.
pub fn libc_flag_values() -> (r: OpenFlagValues)
    ensures
        r.wronly != 0,
        r.rdwr != 0,
        r.append != 0,
        r.creat != 0,
        r.excl != 0,
        r.trunc != 0,
{
    OpenFlagValues {
        rdonly: libc_o_rdonly(),
        wronly: libc_o_wronly(),
        rdwr: libc_o_rdwr(),
        append: libc_o_append(),
        creat: libc_o_creat(),
        excl: libc_o_excl(),
        trunc: libc_o_trunc(),
    }
}

impl OpenOptions {
    /// The Unix open flags of these options, given the platform's flag values.
    pub fn unix_flags_with(&self, v: OpenFlagValues) -> (r: i32)
        ensures
            r == unix_flags_of(*self, v),
    {
        let mut flags: i32 = 0;
        if self.read && !self.write && !self.append {
            flags = flags | v.rdonly;
        } else if !self.read && self.write && !self.append {
            flags = flags | v.wronly;
        } else if self.append {
            flags = flags | (v.wronly | v.append);
        } else {
            flags = flags | v.rdwr;
        }
        proof {
            let a = if self.read && !self.write && !self.append {
                v.rdonly
            } else if !self.read && self.write && !self.append {
                v.wronly
            } else if self.append {
                v.wronly | v.append
            } else {
                v.rdwr
            };
            assert((0i32 | a) == a) by (bit_vector);
            assert(((0i32 | v.wronly) | v.append) == (v.wronly | v.append)) by (bit_vector);
        }
        if self.create {
            flags = flags | v.creat;
        }
        if self.create_new {
            flags = flags | (v.excl | v.creat);
        }
        if self.truncate {
            flags = flags | v.trunc;
        }
        flags
    }

    /// The Unix open flags of these options with the platform's flag values,
    /// and those values.
    pub fn unix_flags(&self) -> (r: (i32, OpenFlagValues))
        ensures
            r.0 == unix_flags_of(*self, r.1),
            r.1.wronly != 0,
            r.1.rdwr != 0,
            r.1.append != 0,
            r.1.creat != 0,
            r.1.excl != 0,
            r.1.trunc != 0,
    {
        let v = libc_flag_values();
        (self.unix_flags_with(v), v)
    }

    /// The Windows desired access, as the `i32` the open operation takes, and
    /// creation disposition of these options.
    pub fn windows_params(&self) -> (r: (i32, u32))
        ensures
            r.0 == windows_access_of(*self) as i32,
            r.1 == windows_disposition_of(*self),
    {
        let mut access: u32 = 0;
        if self.read {
            access = access | GENERIC_READ;
        }
        if self.write {
            access = access | GENERIC_WRITE;
        }
        if self.append {
            access = access | FILE_APPEND_DATA;
        }
        proof {
            assert((0u32 | GENERIC_READ) == GENERIC_READ) by (bit_vector);
            assert((0u32 | GENERIC_WRITE) == GENERIC_WRITE) by (bit_vector);
            assert((0u32 | FILE_APPEND_DATA) == FILE_APPEND_DATA) by (bit_vector);
        }
        let mut disposition = OPEN_EXISTING;
        if self.create_new {
            disposition = CREATE_NEW;
        } else if self.create {
            if self.truncate {
                disposition = CREATE_ALWAYS;
            } else {
                disposition = OPEN_ALWAYS;
            }
        } else if self.truncate {
            disposition = TRUNCATE_EXISTING;
        }
        (access as i32, disposition)
    }
}

} // verus!
