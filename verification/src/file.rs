use vstd::prelude::*;

use crate::convert::{ConResult, ConvertBuffer, ConvertError, FsError};
use crate::find::{first_idx, lemma_first_idx};
use crate::model::{find_key, lemma_find_key, FsModel};
use crate::pathstr::{
    dir_of, ext_name_of, extension_of, is_canon, last_index, lemma_last_index,
    lemma_normalized_canon, name_of, normalized, parent_of,
};
use crate::pbuilder::PathBuilder;
use crate::stream::BufferStream;

verus! {

/// The stream a file handle may hold open: none, a buffered reader with
/// its position, or an appending writer.
pub enum StreamState {
    Closed,
    Reading { pos: usize },
    Writing,
}

/// A handle on one file path, with an optional open read or write
/// stream.  The handle itself is lazy: opening it touches nothing.
pub struct FileInfo {
    inner: PathBuilder,
    stream: StreamState,
}

impl FileInfo {
    /// The held path.
    pub closed spec fn path(self) -> Seq<char> {
        self.inner@
    }

    /// A handle is well formed when its path is normalized and absolute
    /// and names more than the root.
    pub open spec fn wf(self) -> bool {
        is_canon(self.path()) && self.path().len() > 1
    }

    pub closed spec fn stream_state(self) -> StreamState {
        self.stream
    }

    pub open spec fn is_reading(self) -> bool {
        self.stream_state() is Reading
    }

    pub open spec fn read_pos(self) -> int {
        self.stream_state()->pos as int
    }

    pub open spec fn is_writing(self) -> bool {
        self.stream_state() is Writing
    }

    /// Opens a handle on the normalized path, touching no state.
    pub fn open(path: &str, cwd: &str) -> (r: FileInfo)
        requires
            is_canon(cwd@),
            normalized(path@, cwd@).len() > 1,
        ensures
            r.path() == normalized(path@, cwd@),
            r.stream_state() is Closed,
            r.wf(),
    {
        proof {
            lemma_normalized_canon(path@, cwd@);
        }
        FileInfo { inner: PathBuilder::from(path, cwd), stream: StreamState::Closed }
    }

    /// Wraps an already normalized path.
    pub(crate) fn from_builder(inner: PathBuilder) -> (r: FileInfo)
        ensures
            r.path() == inner@,
            r.stream_state() is Closed,
    {
        FileInfo { inner, stream: StreamState::Closed }
    }

    /// Opens the path, creating the directories leading to it and an
    /// empty file when nothing stands there yet.
    pub fn open_smart(path: &str, cwd: &str, fs: &mut FsModel) -> (r: Result<FileInfo, FsError>)
        requires
            old(fs).wf(),
            is_canon(cwd@),
        ensures
            final(fs).wf(),
            forall|q: Seq<char>| old(fs).has_dir(q) ==> final(fs).has_dir(q),
            ({
                let p = normalized(path@, cwd@);
                match r {
                    Ok(h) => {
                        &&& h.path() == p
                        &&& h.stream_state() is Closed
                        &&& (if old(fs).has_path(p) {
                            *final(fs) == *old(fs)
                        } else {
                            final(fs).files_view() == old(fs).files_view().push(
                                (p, Seq::<u8>::empty()),
                            )
                        })
                    },
                    Err(e) => {
                        &&& e == FsError::Other
                        &&& !old(fs).has_path(p)
                        &&& old(fs).blocked(p)
                        &&& final(fs).files_view() == old(fs).files_view()
                    },
                }
            }),
    {
        let builder = PathBuilder::from(path, cwd);
        proof {
            lemma_normalized_canon(path@, cwd@);
        }
        if fs.is_file(builder.full_name()) || fs.is_dir(builder.full_name()) {
            return Ok(FileInfo::from_builder(builder));
        }
        proof {
            // an absent path is never the root, which is always stored
            if builder@.len() <= 1 {
                assert(builder@ =~= seq!['/']);
                crate::find::lemma_first_idx_contains(fs.dirs_view(), seq!['/']);
            }
        }
        let parent = crate::pathstr::dir_of_str(builder.full_name());
        proof {
            crate::pathstr::lemma_last_index(builder@, '/');
            assert(is_canon(parent@)) by {
                let li = last_index(builder@, '/');
                if li == -1 {
                    assert(builder@[0] != '/');
                }
                if li > 0 {
                    assert(parent@ == builder@.take(li));
                    assert(parent@[0] == builder@[0]);
                    assert(!(builder@[li - 1] == '/' && builder@[li] == '/'));
                    assert(parent@.last() == builder@[li - 1]);
                    assert(forall|t: int|
                        0 <= t < parent@.len() ==> #[trigger] parent@[t] == builder@[t]);
                }
            }
        }
        match fs.ensure_dirs(parent.as_str()) {
            Ok(()) => {},
            Err(_) => {
                proof {
                    // a file blocking the parent chain blocks the path too
                    crate::pathstr::lemma_last_index(builder@, '/');
                    let li = last_index(builder@, '/');
                    let j = choose|j: int|
                        1 <= j <= parent@.len() && (j == parent@.len() || parent@[j] == '/')
                            && old(fs).has_file(#[trigger] parent@.take(j));
                    if li <= 0 {
                        assert(builder@[0] != '/' || li == 0);
                        assert(parent@ =~= seq!['/']);
                        lemma_find_key(old(fs).files_view(), parent@.take(j));
                        let w = find_key(old(fs).files_view(), parent@.take(j));
                        assert(old(fs).files_view()[w].0 == parent@.take(j));
                        assert(old(fs).files_view()[w].0.len() > 1);
                        assert(parent@.take(j).len() <= 1);
                    } else {
                        assert(parent@ == builder@.take(li));
                        assert(parent@.take(j) =~= builder@.take(j));
                        assert(1 <= j <= builder@.len() && (j == builder@.len() || builder@[j]
                            == '/') && old(fs).has_file(builder@.take(j)));
                    }
                }
                return Err(FsError::Other);
            },
        }
        proof {
            crate::find::lemma_first_idx_contains(fs.dirs_view(), dir_of(builder@));
            lemma_find_key(fs.files_view(), builder@);
        }
        fs.put_file(builder.full_name(), Vec::new());
        Ok(FileInfo::from_builder(builder))
    }

    /// The whole held path.
    pub fn full_name(&self) -> (r: &str)
        ensures
            r@ == self.path(),
    {
        self.inner.full_name()
    }

    /// The held path builder.
    pub fn builder(&self) -> (r: &PathBuilder)
        ensures
            r@ == self.path(),
    {
        self.inner.borrow()
    }

    /// The trailing segment of the path.
    pub fn name(&self) -> (r: &str)
        ensures
            r@ == name_of(self.path()),
    {
        self.inner.name()
    }

    /// The trailing segment without its extension.
    pub fn ext_name(&self) -> (r: &str)
        ensures
            r@ == ext_name_of(self.path()),
    {
        self.inner.ext_name()
    }

    /// The extension of the trailing segment, dot included.
    pub fn extension(&self) -> (r: &str)
        ensures
            r@ == extension_of(self.path()),
    {
        self.inner.extension()
    }

    /// Everything before the last separator.
    pub fn parent_str(&self) -> (r: &str)
        requires
            self.wf(),
        ensures
            r@ == parent_of(self.path()),
    {
        proof {
            crate::pathstr::lemma_last_index(self.path(), '/');
            if last_index(self.path(), '/') == -1 {
                assert(self.path()[0] != '/');
            }
        }
        self.inner.parent()
    }

    /// Whether the trailing segment starts with a dot.
    pub fn is_hide(&self) -> (r: bool)
        ensures
            r == (name_of(self.path()).len() > 0 && name_of(self.path())[0] == '.'),
    {
        self.inner.is_hide()
    }

    /// Whether a file stands at this path.
    pub fn is_exist(&self, fs: &FsModel) -> (r: bool)
        ensures
            r == fs.has_file(self.path()),
    {
        fs.is_file(self.full_name())
    }

    /// The size of the file at this path, or zero when it is absent.
    pub fn size_bytes(&self, fs: &FsModel) -> (r: usize)
        ensures
            fs.has_file(self.path()) ==> r == fs.content(self.path()).len(),
            !fs.has_file(self.path()) ==> r == 0,
    {
        fs.file_size(self.full_name())
    }

    /// Opens the path for reading; the handle starts over at the
    /// beginning of the file.
    pub fn start_reading(&mut self, fs: &FsModel) -> (r: Result<(), FsError>)
        ensures
            final(self).path() == old(self).path(),
            match r {
                Ok(()) => fs.has_file(old(self).path()) && final(self).stream_state() == (
                StreamState::Reading { pos: 0 }),
                Err(e) => !fs.has_file(old(self).path()) && e == FsError::NotFound && final(self).stream_state() == old(self).stream_state(),
            },
    {
        if fs.is_file(self.inner.full_name()) {
            self.stream = StreamState::Reading { pos: 0 };
            Ok(())
        } else {
            Err(FsError::NotFound)
        }
    }

    /// Opens the path for appending.  The file must already exist: the
    /// append open does not create it.
    pub fn start_writing(&mut self, fs: &FsModel) -> (r: Result<(), FsError>)
        ensures
            final(self).path() == old(self).path(),
            match r {
                Ok(()) => fs.has_file(old(self).path()) && final(self).stream_state()
                    is Writing,
                Err(e) => !fs.has_file(old(self).path()) && e == FsError::NotFound && final(self).stream_state() == old(self).stream_state(),
            },
    {
        if fs.is_file(self.inner.full_name()) {
            self.stream = StreamState::Writing;
            Ok(())
        } else {
            Err(FsError::NotFound)
        }
    }

    /// The error for a call made in the wrong stream state: permission
    /// trouble when the file is there (the right setup call was
    /// skipped), absence otherwise.
    fn state_error(&self, fs: &FsModel) -> (r: FsError)
        ensures
            r == (if fs.has_file(self.path()) {
                FsError::PermissionDenied
            } else {
                FsError::NotFound
            }),
    {
        if fs.is_file(self.inner.full_name()) {
            FsError::PermissionDenied
        } else {
            FsError::NotFound
        }
    }

    /// All bytes from the current read position to the end.
    pub fn read_to_bytes(&mut self, fs: &FsModel) -> (r: Result<Vec<u8>, FsError>)
        ensures
            final(self).path() == old(self).path(),
            match r {
                Ok(v) => old(self).is_reading() && fs.has_file(old(self).path()) && ({
                    let c = fs.content(old(self).path());
                    let p = if old(self).read_pos() <= c.len() {
                        old(self).read_pos()
                    } else {
                        c.len() as int
                    };
                    v@ == c.skip(p) && final(self).stream_state() == (StreamState::Reading {
                        pos: c.len() as usize,
                    })
                }),
                Err(e) => final(self).stream_state() == old(self).stream_state() && !(old(
                    self,
                ).is_reading() && fs.has_file(old(self).path())) && e == (
                if !fs.has_file(old(self).path()) {
                    FsError::NotFound
                } else if !old(self).is_reading() {
                    FsError::PermissionDenied
                } else {
                    FsError::NotFound
                }),
            },
    {
        let pos: usize = match &self.stream {
            StreamState::Reading { pos } => *pos,
            _ => {
                return Err(self.state_error(fs));
            },
        };
        match fs.read_file(self.inner.full_name()) {
            Some(content) => {
                let n = content.len();
                let start = if pos <= n {
                    pos
                } else {
                    n
                };
                let mut v: Vec<u8> = Vec::new();
                let mut i: usize = start;
                while i < n
                    invariant
                        start <= i <= n,
                        n == content@.len(),
                        v@ == content@.subrange(start as int, i as int),
                    decreases n - i,
                {
                    v.push(content[i]);
                    proof {
                        assert(v@ =~= content@.subrange(start as int, i as int + 1));
                    }
                    i = i + 1;
                }
                self.stream = StreamState::Reading { pos: n };
                proof {
                    assert(v@ =~= fs.content(self.path()).skip(start as int));
                }
                Ok(v)
            },
            None => Err(FsError::NotFound),
        }
    }

    /// All bytes from the current read position, decoded as UTF-8.
    pub fn read_to_string(&mut self, fs: &FsModel) -> (r: Result<String, FsError>)
        ensures
            final(self).path() == old(self).path(),
            match r {
                Ok(s) => old(self).is_reading() && fs.has_file(old(self).path()) && ({
                    let c = fs.content(old(self).path());
                    let p = if old(self).read_pos() <= c.len() {
                        old(self).read_pos()
                    } else {
                        c.len() as int
                    };
                    vstd::utf8::valid_utf8(c.skip(p)) && s@ == vstd::utf8::decode_utf8(
                        c.skip(p),
                    ) && final(self).stream_state() == (StreamState::Reading {
                        pos: c.len() as usize,
                    })
                }),
                Err(e) => {
                    if !old(self).is_reading() {
                        &&& e == (if fs.has_file(old(self).path()) {
                            FsError::PermissionDenied
                        } else {
                            FsError::NotFound
                        })
                        &&& final(self).stream_state() == old(self).stream_state()
                    } else if !fs.has_file(old(self).path()) {
                        &&& e == FsError::NotFound
                        &&& final(self).stream_state() == old(self).stream_state()
                    } else {
                        ({
                            let c = fs.content(old(self).path());
                            let p = if old(self).read_pos() <= c.len() {
                                old(self).read_pos()
                            } else {
                                c.len() as int
                            };
                            e == FsError::InvalidData && !vstd::utf8::valid_utf8(c.skip(p))
                        })
                    }
                },
            },
    {
        let bytes = match self.read_to_bytes(fs) {
            Ok(v) => v,
            Err(e) => {
                return Err(e);
            },
        };
        match crate::convert::string_from_utf8(bytes) {
            Some(s) => Ok(s),
            None => Err(FsError::InvalidData),
        }
    }

    /// Exactly `n` bytes from the current read position.  When fewer
    /// remain, the read fails and the stream is drained.
    pub fn read_exact(&mut self, fs: &FsModel, n: usize) -> (r: Result<Vec<u8>, FsError>)
        ensures
            final(self).path() == old(self).path(),
            match r {
                Ok(v) => old(self).is_reading() && fs.has_file(old(self).path()) && ({
                    let c = fs.content(old(self).path());
                    &&& old(self).read_pos() + n <= c.len()
                    &&& v@ == c.subrange(old(self).read_pos(), old(self).read_pos() + n)
                    &&& final(self).stream_state() == (StreamState::Reading {
                        pos: (old(self).read_pos() + n) as usize,
                    })
                }),
                Err(e) => {
                    if !old(self).is_reading() {
                        &&& e == (if fs.has_file(old(self).path()) {
                            FsError::PermissionDenied
                        } else {
                            FsError::NotFound
                        })
                        &&& final(self).stream_state() == old(self).stream_state()
                    } else if !fs.has_file(old(self).path()) {
                        &&& e == FsError::NotFound
                        &&& final(self).stream_state() == old(self).stream_state()
                    } else {
                        ({
                            let c = fs.content(old(self).path());
                            &&& e == FsError::UnexpectedEof
                            &&& old(self).read_pos() + n > c.len()
                            &&& final(self).stream_state() == (StreamState::Reading {
                                pos: c.len() as usize,
                            })
                        })
                    }
                },
            },
    {
        let pos: usize = match &self.stream {
            StreamState::Reading { pos } => *pos,
            _ => {
                return Err(self.state_error(fs));
            },
        };
        match fs.read_file(self.inner.full_name()) {
            Some(content) => {
                let len = content.len();
                if pos > len || n > len - pos {
                    self.stream = StreamState::Reading { pos: len };
                    return Err(FsError::UnexpectedEof);
                }
                let mut v: Vec<u8> = Vec::new();
                let mut i: usize = pos;
                while i < pos + n
                    invariant
                        pos <= i <= pos + n,
                        pos + n <= len,
                        len == content@.len(),
                        v@ == content@.subrange(pos as int, i as int),
                    decreases pos + n - i,
                {
                    v.push(content[i]);
                    proof {
                        assert(v@ =~= content@.subrange(pos as int, i as int + 1));
                    }
                    i = i + 1;
                }
                self.stream = StreamState::Reading { pos: pos + n };
                Ok(v)
            },
            None => Err(FsError::NotFound),
        }
    }

    /// One chunk read up to and including the first `byte` at or after
    /// `pos`, or the whole rest when none follows.
    pub open spec fn chunk_end(c: Seq<u8>, pos: int, byte: u8) -> int {
        let rel = first_idx(c.skip(pos), byte);
        if rel == -1 {
            c.len() as int
        } else {
            pos + rel + 1
        }
    }

    /// Reads up to and including the next `byte`, strips that trailing
    /// delimiter (and a carriage return before a newline), and converts
    /// the remaining bytes.  An empty read before stripping reports
    /// `Empty`.
    pub fn read_until<B: ConvertBuffer>(&mut self, fs: &FsModel, byte: u8) -> (r: ConResult<B>)
        ensures
            final(self).path() == old(self).path(),
            ({
                let c = fs.content(old(self).path());
                let pos = if old(self).read_pos() <= c.len() {
                    old(self).read_pos()
                } else {
                    c.len() as int
                };
                let end = Self::chunk_end(c, pos, byte);
                let raw = c.subrange(pos, end);
                let stripped = strip_delim(raw, byte);
                if !old(self).is_reading() {
                    r == Err::<B, ConvertError>(
                        ConvertError::IoError(
                            if fs.has_file(old(self).path()) {
                                FsError::PermissionDenied
                            } else {
                                FsError::NotFound
                            },
                        ),
                    ) && final(self).stream_state() == old(self).stream_state()
                } else if !fs.has_file(old(self).path()) {
                    r == Err::<B, ConvertError>(ConvertError::IoError(FsError::NotFound))
                        && final(self).stream_state() == old(self).stream_state()
                } else {
                    &&& final(self).stream_state() == (StreamState::Reading {
                        pos: end as usize,
                    })
                    &&& (raw.len() == 0 ==> r == Err::<B, ConvertError>(ConvertError::Empty))
                    &&& (raw.len() > 0 ==> match r {
                        Ok(v) => B::from_buf_err(stripped) is None && B::from_buf_ok(
                            stripped,
                            v,
                        ),
                        Err(e) => B::from_buf_err(stripped) == Some(e),
                    })
                }
            }),
    {
        let pos0: usize = match &self.stream {
            StreamState::Reading { pos } => *pos,
            _ => {
                return Err(ConvertError::IoError(self.state_error(fs)));
            },
        };
        let content = match fs.read_file(self.inner.full_name()) {
            Some(v) => v,
            None => {
                return Err(ConvertError::IoError(FsError::NotFound));
            },
        };
        let n = content.len();
        let pos = if pos0 <= n {
            pos0
        } else {
            n
        };
        let mut j: usize = pos;
        while j < n && content[j] != byte
            invariant
                pos <= j <= n,
                n == content@.len(),
                forall|t: int| pos <= t < j ==> content@[t] != byte,
            decreases n - j,
        {
            j = j + 1;
        }
        let end = if j < n {
            j + 1
        } else {
            n
        };
        proof {
            crate::find::lemma_first_idx(content@.skip(pos as int), byte);
            let rel = first_idx(content@.skip(pos as int), byte);
            if j < n {
                assert(content@[j as int] == byte);
                assert(content@.skip(pos as int)[j - pos] == byte);
                assert(rel >= 0) by {
                    if rel == -1 {
                        assert(content@.skip(pos as int)[j - pos] != byte);
                    }
                }
                assert(content@.skip(pos as int)[rel] == byte);
                assert(rel == j - pos) by {
                    if rel < j - pos {
                        assert(content@[rel + pos] != byte);
                        assert(content@.skip(pos as int)[rel] != byte);
                    }
                    if rel > j - pos {
                        assert(content@.skip(pos as int)[j - pos] != byte);
                    }
                }
            } else {
                assert(rel == -1) by {
                    if rel >= 0 {
                        assert(content@.skip(pos as int)[rel] == byte);
                        assert(content@[rel + pos] != byte);
                    }
                }
            }
            assert(end as int == Self::chunk_end(content@, pos as int, byte));
        }
        let mut buf: Vec<u8> = Vec::new();
        let mut i: usize = pos;
        while i < end
            invariant
                pos <= i <= end,
                end <= n,
                n == content@.len(),
                buf@ == content@.subrange(pos as int, i as int),
            decreases end - i,
        {
            buf.push(content[i]);
            proof {
                assert(buf@ =~= content@.subrange(pos as int, i as int + 1));
            }
            i = i + 1;
        }
        self.stream = StreamState::Reading { pos: end };
        if buf.len() == 0 {
            return Err(ConvertError::Empty);
        }
        let blen = buf.len();
        if buf[blen - 1] == byte {
            buf.pop();
            let blen2 = buf.len();
            if byte == 10u8 && blen2 > 0 && buf[blen2 - 1] == 13u8 {
                buf.pop();
            }
        }
        proof {
            let raw = fs.content(self.path()).subrange(
                pos as int,
                Self::chunk_end(fs.content(self.path()), pos as int, byte),
            );
            assert(buf@ == strip_delim(raw, byte));
        }
        B::from_buf(buf)
    }

    /// Reads up to and including the next newline, strips it and a
    /// preceding carriage return, and converts the remaining bytes.
    pub fn read_line<B: ConvertBuffer>(&mut self, fs: &FsModel) -> (r: ConResult<B>)
        ensures
            final(self).path() == old(self).path(),
            ({
                let c = fs.content(old(self).path());
                let pos = if old(self).read_pos() <= c.len() {
                    old(self).read_pos()
                } else {
                    c.len() as int
                };
                let end = Self::chunk_end(c, pos, 10);
                let raw = c.subrange(pos, end);
                let stripped = strip_delim(raw, 10);
                if !old(self).is_reading() {
                    r == Err::<B, ConvertError>(
                        ConvertError::IoError(
                            if fs.has_file(old(self).path()) {
                                FsError::PermissionDenied
                            } else {
                                FsError::NotFound
                            },
                        ),
                    ) && final(self).stream_state() == old(self).stream_state()
                } else if !fs.has_file(old(self).path()) {
                    r == Err::<B, ConvertError>(ConvertError::IoError(FsError::NotFound))
                        && final(self).stream_state() == old(self).stream_state()
                } else {
                    &&& final(self).stream_state() == (StreamState::Reading {
                        pos: end as usize,
                    })
                    &&& (raw.len() == 0 ==> r == Err::<B, ConvertError>(ConvertError::Empty))
                    &&& (raw.len() > 0 ==> match r {
                        Ok(v) => B::from_buf_err(stripped) is None && B::from_buf_ok(
                            stripped,
                            v,
                        ),
                        Err(e) => B::from_buf_err(stripped) == Some(e),
                    })
                }
            }),
    {
        self.read_until(fs, 10u8)
    }

    /// Reads everything from the current position and converts it.
    pub fn read_to_any<B: ConvertBuffer>(&mut self, fs: &FsModel) -> (r: ConResult<B>)
        ensures
            final(self).path() == old(self).path(),
            match r {
                Ok(v) => old(self).is_reading() && fs.has_file(old(self).path()) && ({
                    let c = fs.content(old(self).path());
                    let p = if old(self).read_pos() <= c.len() {
                        old(self).read_pos()
                    } else {
                        c.len() as int
                    };
                    B::from_buf_err(c.skip(p)) is None && B::from_buf_ok(c.skip(p), v)
                }),
                Err(e) => {
                    if !old(self).is_reading() {
                        e == ConvertError::IoError(
                            if fs.has_file(old(self).path()) {
                                FsError::PermissionDenied
                            } else {
                                FsError::NotFound
                            },
                        )
                    } else if !fs.has_file(old(self).path()) {
                        e == ConvertError::IoError(FsError::NotFound)
                    } else {
                        ({
                            let c = fs.content(old(self).path());
                            let p = if old(self).read_pos() <= c.len() {
                                old(self).read_pos()
                            } else {
                                c.len() as int
                            };
                            B::from_buf_err(c.skip(p)) == Some(e)
                        })
                    }
                },
            },
    {
        match self.read_to_bytes(fs) {
            Ok(v) => B::from_buf(v),
            Err(e) => Err(ConvertError::IoError(e)),
        }
    }

    /// Copies or moves the file to the destination, clearing whatever
    /// stood there first: a standing file or directory tree at the
    /// destination is removed before the transfer.
    pub fn cover_new(&mut self, fs: &mut FsModel, path: &str, cwd: &str, is_move: bool) -> (r:
        Result<(), FsError>)
        requires
            old(fs).wf(),
            is_canon(cwd@),
        ensures
            final(fs).wf(),
            ({
                let src = old(self).path();
                let dest = normalized(path@, cwd@);
                if dest == src {
                    r is Ok && *final(fs) == *old(fs) && *final(self) == *old(self)
                } else {
                    match r {
                        Ok(()) => {
                            &&& old(fs).has_file(src)
                            &&& final(fs).has_file(dest)
                            &&& final(fs).content(dest) == old(fs).content(src)
                            &&& (is_move ==> final(self).path() == dest && !final(fs).has_file(
                                src,
                            ))
                            &&& (!is_move ==> final(self).path() == src && final(fs).has_file(
                                src,
                            ) && final(fs).content(src) == old(fs).content(src))
                        },
                        Err(e) => {
                            &&& final(self).path() == old(self).path()
                            &&& (e == FsError::NotFound || e == FsError::Other)
                            &&& (!old(fs).has_file(src) || dest == seq!['/'] || !old(
                                fs,
                            ).dirs_view().contains(dir_of(dest)) || crate::model::in_dir_tree(
                                src,
                                dest,
                            ))
                        },
                    }
                }
            }),
    {
        let ghost src = self.path();
        let ghost fs_old = fs.files_view();
        let ghost ds_old = fs.dirs_view();
        let dest = PathBuilder::from(path, cwd);
        proof {
            lemma_normalized_canon(path@, cwd@);
        }
        if crate::text::str_eq(dest.full_name(), self.inner.full_name()) {
            return Ok(());
        }
        if fs.read_file(self.inner.full_name()).is_none() {
            return Err(FsError::NotFound);
        }
        proof {
            lemma_find_key(fs_old, src);
            assert forall|i: int, j: int|
                0 <= i < j < fs_old.len() implies fs_old[i].0 != (fs_old[j]).0 by {}
        }
        let dest_was_dir = fs.is_dir(dest.full_name());
        if dest_was_dir {
            if dest.full_name().unicode_len() <= 1 {
                proof {
                    assert(dest@ =~= seq!['/']);
                }
                return Err(FsError::Other);
            }
            fs.remove_tree(dest.full_name());
            proof {
                crate::model::lemma_files_not_under_find(fs_old, dest@, src);
            }
        } else {
            let _ = fs.remove_file(dest.full_name());
            proof {
                lemma_find_key(fs_old, dest@);
                if find_key(fs_old, dest@) >= 0 {
                    let kd = find_key(fs_old, dest@);
                    assert(fs_old[kd].0 == dest@);
                    assert forall|j: int|
                        0 <= j < fs_old.len() && j != kd implies (#[trigger] fs_old[j]).0
                        != dest@ by {
                        if j < kd {
                            assert(fs_old[j].0 != fs_old[kd].0);
                        } else {
                            assert(fs_old[kd].0 != fs_old[j].0);
                        }
                    }
                    lemma_removed_key_facts(fs_old, kd, dest@, src);
                }
            }
        }
        // a source sitting below a cleared destination tree is gone now
        let still = match fs.read_file(self.inner.full_name()) {
            Some(v) => v,
            None => {
                proof {
                    if dest_was_dir {
                        assert(src != dest@);
                        assert(crate::model::in_dir_tree(src, dest@));
                    }
                }
                return Err(FsError::NotFound);
            },
        };
        proof {
            lemma_find_key(fs.files_view(), src);
            assert(still@ == old(fs).content(src));
        }
        if dest.full_name().unicode_len() <= 1 {
            proof {
                assert(dest@ =~= seq!['/']);
            }
            return Err(FsError::Other);
        }
        let parent = crate::pathstr::dir_of_str(dest.full_name());
        if !fs.is_dir(parent.as_str()) {
            proof {
                // the holding directory of the destination was not taken
                // away by the clearing: it is shorter than the destination
                crate::find::lemma_first_idx_contains(fs.dirs_view(), dir_of(dest@));
                crate::find::lemma_first_idx_contains(ds_old, dir_of(dest@));
                if dest_was_dir {
                    crate::model::lemma_dirs_not_under_contains(ds_old, dest@);
                    crate::pathstr::lemma_last_index(dest@, '/');
                    assert(dir_of(dest@).len() < dest@.len()) by {
                        let li = last_index(dest@, '/');
                        if li == -1 {
                            assert(dest@[0] != '/');
                        }
                    }
                    assert(dir_of(dest@) != dest@);
                    assert(!crate::model::in_dir_tree(dir_of(dest@), dest@));
                }
            }
            return Err(FsError::NotFound);
        }
        proof {
            crate::find::lemma_first_idx_contains(fs.dirs_view(), dir_of(dest@));
            lemma_find_key(fs.files_view(), dest@);
        }
        let ghost before_put = fs.files_view();
        let ghost still_view = still@;
        fs.put_file(dest.full_name(), still);
        proof {
            let fv = fs.files_view();
            lemma_find_key(before_put, dest@);
            lemma_find_key(before_put, src);
            lemma_find_key(fv, dest@);
            lemma_find_key(fv, src);
            let kb = find_key(before_put, dest@);
            let ksb = find_key(before_put, src);
            assert(ksb >= 0);
            assert(before_put[ksb].0 == src);
            assert forall|i: int, j: int|
                0 <= i < j < before_put.len() implies before_put[i].0 != (before_put[j]).0 by {}
            if kb >= 0 {
                assert(fv =~= before_put.update(kb, (dest@, still_view)));
                assert(before_put[kb].0 == dest@);
                assert(ksb != kb);
                assert(fv[ksb] == before_put[ksb]);
                assert(forall|j: int|
                    0 <= j < fv.len() ==> (#[trigger] fv[j]).0 == before_put[j].0);
                assert(find_key(fv, dest@) == kb) by {
                    if find_key(fv, dest@) > kb {
                        assert(fv[kb].0 != dest@);
                    }
                    if 0 <= find_key(fv, dest@) < kb {
                        assert(fv[find_key(fv, dest@)].0 == dest@);
                        assert(before_put[find_key(fv, dest@)].0 == dest@);
                    }
                    if find_key(fv, dest@) == -1 {
                        assert(fv[kb].0 != dest@);
                    }
                }
                assert(fs.content(dest@) == still_view);
                assert(find_key(fv, src) == ksb) by {
                    if find_key(fv, src) > ksb {
                        assert(fv[ksb].0 != src);
                    }
                    if 0 <= find_key(fv, src) < ksb {
                        assert(fv[find_key(fv, src)].0 == src);
                        assert(before_put[find_key(fv, src)].0 == src);
                    }
                    if find_key(fv, src) == -1 {
                        assert(fv[ksb].0 != src);
                    }
                }
                assert(fs.content(src) == old(fs).content(src));
            } else {
                assert(fv =~= before_put.push((dest@, still_view)));
                crate::model::lemma_find_key_push(before_put, (dest@, still_view), dest@);
                crate::model::lemma_find_key_push(before_put, (dest@, still_view), src);
                assert(find_key(fv, dest@) == before_put.len());
                assert(fs.content(dest@) == still_view);
                assert(find_key(fv, src) == ksb);
                assert(fv[ksb] == before_put[ksb]);
                assert(fs.content(src) == old(fs).content(src));
            }
            // the key uniqueness survives into the updated store
            assert forall|i: int, j: int|
                0 <= i < j < fv.len() implies fv[i].0 != (fv[j]).0 by {}
        }
        if is_move {
            let ghost fv = fs.files_view();
            proof {
                lemma_find_key(fv, src);
                let ks = find_key(fv, src);
                assert(fv[ks].0 == src);
                assert forall|j: int|
                    0 <= j < fv.len() && j != ks implies (#[trigger] fv[j]).0 != src by {
                    if j < ks {
                        assert(fv[j].0 != fv[ks].0);
                    } else {
                        assert(fv[ks].0 != fv[j].0);
                    }
                }
                lemma_removed_key_facts(fv, ks, src, dest@);
            }
            let removed = fs.remove_file(self.inner.full_name());
            proof {
                assert(removed);
            }
            *self = FileInfo::from_builder(dest);
        }
        Ok(())
    }

    /// Copies or moves the file into the directory `path` under its own
    /// name, clearing whatever stood there first.
    pub fn cover_to(&mut self, fs: &mut FsModel, path: &str, cwd: &str, is_move: bool) -> (r:
        Result<(), FsError>)
        requires
            old(fs).wf(),
            is_canon(cwd@),
        ensures
            final(fs).wf(),
            ({
                let src = old(self).path();
                let dest = normalized(path@ + seq!['/'] + name_of(old(self).path()), cwd@);
                if dest == src {
                    r is Ok && *final(fs) == *old(fs) && *final(self) == *old(self)
                } else {
                    match r {
                        Ok(()) => {
                            &&& old(fs).has_file(src)
                            &&& final(fs).has_file(dest)
                            &&& final(fs).content(dest) == old(fs).content(src)
                            &&& (is_move ==> final(self).path() == dest && !final(fs).has_file(
                                src,
                            ))
                            &&& (!is_move ==> final(self).path() == src && final(fs).has_file(
                                src,
                            ) && final(fs).content(src) == old(fs).content(src))
                        },
                        Err(e) => final(self).path() == old(self).path() && (e
                            == FsError::NotFound || e == FsError::Other),
                    }
                }
            }),
    {
        let mut target = String::new();
        target.append(path);
        target.push('/');
        target.append(self.name());
        proof {
            assert(target@ =~= path@ + seq!['/'] + name_of(self.path()));
        }
        self.cover_new(fs, target.as_str(), cwd, is_move)
    }

    /// The file size in whole kilobyte steps.
    pub fn size_kb(&self, fs: &FsModel) -> (r: usize)
        ensures
            fs.has_file(self.path()) ==> r == fs.content(self.path()).len() / 1024,
            !fs.has_file(self.path()) ==> r == 0,
    {
        self.size_bytes(fs) / 1024
    }

    /// The file size in whole megabyte steps.
    pub fn size_mb(&self, fs: &FsModel) -> (r: usize)
        ensures
            fs.has_file(self.path()) ==> r == fs.content(self.path()).len() / 1024 / 1024,
            !fs.has_file(self.path()) ==> r == 0,
    {
        self.size_kb(fs) / 1024
    }

    /// What stands at this path: a file or nothing.
    pub fn attributes(&self, fs: &FsModel) -> (r: crate::fd::Attributes)
        ensures
            r is File <==> fs.has_file(self.path()),
            !(r is Directory),
    {
        if fs.is_file(self.inner.full_name()) {
            crate::fd::Attributes::File
        } else {
            crate::fd::Attributes::Absent
        }
    }

    /// Whether the extension equals one of the given patterns up to
    /// ASCII letter case.
    pub fn extension_match_ignore_ascii_case(&self, needle: &[&str]) -> (r: bool)
        ensures
            r == (exists|i: int|
                0 <= i < needle@.len() && ascii_eq_fold((#[trigger] needle@[i])@, extension_of(
                    self.path(),
                ))),
    {
        let ext = self.extension();
        let n = needle.len();
        let mut i: usize = 0;
        while i < n
            invariant
                i <= n,
                n == needle@.len(),
                ext@ == extension_of(self.path()),
                forall|j: int|
                    0 <= j < i ==> !ascii_eq_fold((#[trigger] needle@[j])@, extension_of(
                        self.path(),
                    )),
            decreases n - i,
        {
            if str_eq_fold(needle[i], ext) {
                return true;
            }
            i = i + 1;
        }
        false
    }

    /// Whether the extension equals one of the given patterns exactly.
    pub fn extension_match(&self, needle: &[&str]) -> (r: bool)
        ensures
            r == (exists|i: int|
                0 <= i < needle@.len() && (#[trigger] needle@[i])@ == extension_of(self.path())),
    {
        let ext = self.extension();
        let n = needle.len();
        let mut i: usize = 0;
        while i < n
            invariant
                i <= n,
                n == needle@.len(),
                ext@ == extension_of(self.path()),
                forall|j: int| 0 <= j < i ==> (#[trigger] needle@[j])@ != extension_of(
                    self.path(),
                ),
            decreases n - i,
        {
            if crate::text::str_eq(needle[i], ext) {
                return true;
            }
            i = i + 1;
        }
        false
    }

    /// Appends the given bytes to the open file.
    pub fn write<T: BufferStream>(&mut self, fs: &mut FsModel, contents: T) -> (r: Result<
        (),
        FsError,
    >)
        requires
            old(fs).wf(),
        ensures
            final(self).path() == old(self).path(),
            final(self).stream_state() == old(self).stream_state(),
            final(fs).wf(),
            final(fs).dirs_view() == old(fs).dirs_view(),
            (r is Ok) == (old(self).is_writing() && old(fs).has_file(old(self).path())),
            match r {
                Ok(()) => old(self).is_writing() && old(fs).has_file(old(self).path()) && ({
                    let k = find_key(old(fs).files_view(), old(self).path());
                    final(fs).files_view() == old(fs).files_view().update(
                        k,
                        (old(self).path(), old(fs).content(old(self).path()) + contents.byte_view()),
                    )
                }),
                Err(e) => final(fs).files_view() == old(fs).files_view() && e == (
                if !old(self).is_writing() {
                    if old(fs).has_file(old(self).path()) {
                        FsError::PermissionDenied
                    } else {
                        FsError::NotFound
                    }
                } else {
                    FsError::NotFound
                }),
            },
    {
        match &self.stream {
            StreamState::Writing => {},
            _ => {
                return Err(self.state_error(fs));
            },
        }
        let mut buf = match fs.read_file(self.inner.full_name()) {
            Some(v) => v,
            None => {
                return Err(FsError::NotFound);
            },
        };
        let mut tail = contents.write_buf();
        buf.append(&mut tail);
        proof {
            lemma_find_key(fs.files_view(), self.path());
            let k = find_key(fs.files_view(), self.path());
            assert(fs.files_view()[k].0 == self.path());
            assert(fs.dirs_view().contains(dir_of(fs.files_view()[k].0)));
            assert(is_canon(self.path()) && self.path().len() > 1);
        }
        fs.put_file(self.inner.full_name(), buf);
        Ok(())
    }

    /// Appends the given bytes and then one newline byte.
    pub fn writeln<T: BufferStream>(&mut self, fs: &mut FsModel, contents: T) -> (r: Result<
        (),
        FsError,
    >)
        requires
            old(fs).wf(),
        ensures
            final(self).path() == old(self).path(),
            final(self).stream_state() == old(self).stream_state(),
            final(fs).wf(),
            final(fs).dirs_view() == old(fs).dirs_view(),
            (r is Ok) == (old(self).is_writing() && old(fs).has_file(old(self).path())),
            match r {
                Ok(()) => old(self).is_writing() && old(fs).has_file(old(self).path()) && ({
                    let k = find_key(old(fs).files_view(), old(self).path());
                    final(fs).files_view() == old(fs).files_view().update(
                        k,
                        (
                            old(self).path(),
                            old(fs).content(old(self).path()) + contents.byte_view() + seq![10u8],
                        ),
                    )
                }),
                Err(e) => final(fs).files_view() == old(fs).files_view() && e == (
                if !old(self).is_writing() {
                    if old(fs).has_file(old(self).path()) {
                        FsError::PermissionDenied
                    } else {
                        FsError::NotFound
                    }
                } else {
                    FsError::NotFound
                }),
            },
    {
        match &self.stream {
            StreamState::Writing => {},
            _ => {
                return Err(self.state_error(fs));
            },
        }
        let mut buf = match fs.read_file(self.inner.full_name()) {
            Some(v) => v,
            None => {
                return Err(FsError::NotFound);
            },
        };
        let mut tail = contents.write_buf();
        buf.append(&mut tail);
        buf.push(10u8);
        proof {
            lemma_find_key(fs.files_view(), self.path());
            let k = find_key(fs.files_view(), self.path());
            assert(fs.files_view()[k].0 == self.path());
            assert(fs.dirs_view().contains(dir_of(fs.files_view()[k].0)));
            assert(buf@ =~= fs.content(self.path()) + contents.byte_view() + seq![10u8]);
        }
        fs.put_file(self.inner.full_name(), buf);
        Ok(())
    }

    /// Replaces the file's content outright, creating the file when
    /// absent, and leaves the handle in the writing state.
    pub fn overwrite<T: BufferStream>(&mut self, fs: &mut FsModel, contents: T) -> (r: Result<
        (),
        FsError,
    >)
        requires
            old(fs).wf(),
            old(self).wf(),
        ensures
            final(self).path() == old(self).path(),
            final(fs).wf(),
            final(fs).dirs_view() == old(fs).dirs_view(),
            match r {
                Ok(()) => {
                    &&& !old(fs).has_dir(old(self).path())
                    &&& old(fs).dirs_view().contains(dir_of(old(self).path()))
                    &&& final(self).stream_state() is Writing
                    &&& ({
                        let k = find_key(old(fs).files_view(), old(self).path());
                        if k >= 0 {
                            final(fs).files_view() == old(fs).files_view().update(
                                k,
                                (old(self).path(), contents.byte_view()),
                            )
                        } else {
                            final(fs).files_view() == old(fs).files_view().push(
                                (old(self).path(), contents.byte_view()),
                            )
                        }
                    })
                },
                Err(e) => {
                    &&& final(fs).files_view() == old(fs).files_view()
                    &&& final(self).stream_state() == old(self).stream_state()
                    &&& e == (if old(fs).has_dir(old(self).path()) {
                        FsError::Other
                    } else {
                        FsError::NotFound
                    })
                    &&& (e == FsError::NotFound ==> !old(fs).dirs_view().contains(
                        dir_of(old(self).path()),
                    ))
                },
            },
    {
        if fs.is_dir(self.inner.full_name()) {
            return Err(FsError::Other);
        }
        let parent = crate::pathstr::dir_of_str(self.inner.full_name());
        if !fs.is_dir(parent.as_str()) {
            proof {
                crate::find::lemma_first_idx_contains(fs.dirs_view(), dir_of(self.path()));
            }
            return Err(FsError::NotFound);
        }
        proof {
            crate::find::lemma_first_idx_contains(fs.dirs_view(), dir_of(self.path()));
        }
        let buf = contents.write_buf();
        fs.put_file(self.inner.full_name(), buf);
        self.stream = StreamState::Writing;
        Ok(())
    }

    /// Copies the file to a fresh destination path.  An existing
    /// destination fails the call and leaves everything untouched.
    pub fn copy_new(&self, fs: &mut FsModel, path: &str, cwd: &str) -> (r: Result<(), FsError>)
        requires
            old(fs).wf(),
            is_canon(cwd@),
        ensures
            final(fs).wf(),
            final(fs).dirs_view() == old(fs).dirs_view(),
            ({
                let dest = normalized(path@, cwd@);
                match r {
                    Ok(()) => {
                        &&& !old(fs).has_path(dest)
                        &&& old(fs).has_file(self.path())
                        &&& old(fs).dirs_view().contains(dir_of(dest))
                        &&& final(fs).files_view() == old(fs).files_view().push(
                            (dest, old(fs).content(self.path())),
                        )
                    },
                    Err(e) => {
                        &&& final(fs).files_view() == old(fs).files_view()
                        &&& e == (if old(fs).has_path(dest) {
                            FsError::AlreadyExists
                        } else {
                            FsError::NotFound
                        })
                        &&& (old(fs).has_path(dest) || !old(fs).has_file(self.path()) || !old(
                            fs,
                        ).dirs_view().contains(dir_of(dest)))
                    },
                }
            }),
    {
        let dest = PathBuilder::from(path, cwd);
        proof {
            lemma_normalized_canon(path@, cwd@);
        }
        if fs.is_exist(dest.full_name()) {
            return Err(FsError::AlreadyExists);
        }
        let content = match fs.read_file(self.inner.full_name()) {
            Some(v) => v,
            None => {
                return Err(FsError::NotFound);
            },
        };
        if dest.full_name().unicode_len() <= 1 {
            // the root cannot be a file, and it always exists
            proof {
                assert(dest@ =~= seq!['/']);
                crate::find::lemma_first_idx_contains(fs.dirs_view(), seq!['/']);
            }
            return Err(FsError::AlreadyExists);
        }
        let parent = crate::pathstr::dir_of_str(dest.full_name());
        if !fs.is_dir(parent.as_str()) {
            proof {
                crate::find::lemma_first_idx_contains(fs.dirs_view(), dir_of(dest@));
            }
            return Err(FsError::NotFound);
        }
        proof {
            crate::find::lemma_first_idx_contains(fs.dirs_view(), dir_of(dest@));
            lemma_find_key(fs.files_view(), dest@);
        }
        fs.put_file(dest.full_name(), content);
        Ok(())
    }

    /// Copies the file into the directory `path`, keeping its name.
    pub fn copy_to(&self, fs: &mut FsModel, path: &str, cwd: &str) -> (r: Result<(), FsError>)
        requires
            old(fs).wf(),
            is_canon(cwd@),
            self.wf(),
        ensures
            final(fs).wf(),
            final(fs).dirs_view() == old(fs).dirs_view(),
            ({
                let dest = normalized(path@ + seq!['/'] + name_of(self.path()), cwd@);
                match r {
                    Ok(()) => {
                        &&& !old(fs).has_path(dest)
                        &&& old(fs).has_file(self.path())
                        &&& final(fs).files_view() == old(fs).files_view().push(
                            (dest, old(fs).content(self.path())),
                        )
                    },
                    Err(e) => {
                        &&& final(fs).files_view() == old(fs).files_view()
                        &&& (old(fs).has_path(dest) || !old(fs).has_file(self.path()) || !old(
                            fs,
                        ).dirs_view().contains(dir_of(dest)))
                    },
                }
            }),
    {
        let mut target = String::new();
        target.append(path);
        target.push('/');
        target.append(self.name());
        proof {
            assert(target@ =~= path@ + seq!['/'] + name_of(self.path()));
        }
        self.copy_new(fs, target.as_str(), cwd)
    }

    /// Moves the file to a fresh destination path and points the handle
    /// there.  The old path is gone afterwards.
    pub fn move_new(&mut self, fs: &mut FsModel, path: &str, cwd: &str) -> (r: Result<
        (),
        FsError,
    >)
        requires
            old(fs).wf(),
            is_canon(cwd@),
        ensures
            final(fs).wf(),
            final(fs).dirs_view() == old(fs).dirs_view(),
            ({
                let dest = normalized(path@, cwd@);
                match r {
                    Ok(()) => {
                        &&& !old(fs).has_path(dest)
                        &&& old(fs).has_file(old(self).path())
                        &&& final(self).path() == dest
                        &&& final(self).stream_state() is Closed
                        &&& !final(fs).has_file(old(self).path())
                        &&& final(fs).has_file(dest)
                        &&& final(fs).content(dest) == old(fs).content(old(self).path())
                        &&& final(fs).files_view() == old(fs).files_view().push(
                            (dest, old(fs).content(old(self).path())),
                        ).remove(find_key(old(fs).files_view(), old(self).path()))
                    },
                    Err(e) => {
                        &&& final(fs).files_view() == old(fs).files_view()
                        &&& *final(self) == *old(self)
                        &&& e == (if old(fs).has_path(dest) {
                            FsError::AlreadyExists
                        } else {
                            FsError::NotFound
                        })
                        &&& (old(fs).has_path(dest) || !old(fs).has_file(old(self).path())
                            || !old(fs).dirs_view().contains(dir_of(dest)))
                    },
                }
            }),
    {
        let ghost dest_spec = normalized(path@, cwd@);
        let dest = PathBuilder::from(path, cwd);
        proof {
            lemma_normalized_canon(path@, cwd@);
        }
        let ghost fs0 = *fs;
        let r = self.copy_new(fs, path, cwd);
        match r {
            Ok(()) => {
                proof {
                    lemma_find_key(fs0.files_view(), self.path());
                    let k = find_key(fs0.files_view(), self.path());
                    assert(fs0.files_view()[k].0 == self.path());
                    lemma_find_key_push_front_stable(
                        fs0.files_view(),
                        (dest_spec, fs0.content(self.path())),
                        self.path(),
                    );
                }
                let removed = fs.remove_file(self.inner.full_name());
                proof {
                    assert(removed);
                }
                proof {
                    // the destination entry survives the removal of the source
                    let src = self.path();
                    let pushed = fs0.files_view().push((dest_spec, fs0.content(src)));
                    let k = find_key(fs0.files_view(), src);
                    lemma_find_key(fs0.files_view(), dest_spec);
                    assert(src != dest_spec);
                    lemma_find_key(pushed, dest_spec);
                    assert(pushed[fs0.files_view().len() as int].0 == dest_spec);
                    if find_key(pushed, dest_spec) == -1 {
                        assert(pushed[fs0.files_view().len() as int].0 != dest_spec);
                    }
                    assert(find_key(pushed, dest_spec) >= 0);
                    assert forall|j: int|
                        0 <= j < pushed.len() && j != k implies (#[trigger] pushed[j]).0
                        != src by {
                        if j < fs0.files_view().len() {
                            assert(fs0.files_view()[j] == pushed[j]);
                            if j < k {
                                assert(fs0.files_view()[j].0 != fs0.files_view()[k].0);
                            }
                            if j > k {
                                assert(fs0.files_view()[k].0 != fs0.files_view()[j].0);
                            }
                        }
                    }
                    lemma_removed_key_facts(pushed, k, src, dest_spec);
                    // the destination is the freshly pushed entry, so its
                    // content is the copied one
                    let fkp = find_key(pushed, dest_spec);
                    assert(pushed[fkp].0 == dest_spec);
                    if fkp < fs0.files_view().len() {
                        assert(fs0.files_view()[fkp].0 == dest_spec);
                        assert(fs0.has_file(dest_spec));
                        assert(false);
                    }
                    assert(pushed[fkp].1 == fs0.content(src));
                }
                *self = FileInfo::from_builder(dest);
                Ok(())
            },
            Err(e) => Err(e),
        }
    }

    /// Moves the file into the directory `path`, keeping its name.
    pub fn move_to(&mut self, fs: &mut FsModel, path: &str, cwd: &str) -> (r: Result<
        (),
        FsError,
    >)
        requires
            old(fs).wf(),
            is_canon(cwd@),
            old(self).wf(),
        ensures
            final(fs).wf(),
            final(fs).dirs_view() == old(fs).dirs_view(),
            ({
                let dest = normalized(path@ + seq!['/'] + name_of(old(self).path()), cwd@);
                match r {
                    Ok(()) => {
                        &&& final(self).path() == dest
                        &&& !final(fs).has_file(old(self).path())
                        &&& final(fs).has_file(dest)
                        &&& final(fs).content(dest) == old(fs).content(old(self).path())
                    },
                    Err(e) => {
                        &&& final(fs).files_view() == old(fs).files_view()
                        &&& *final(self) == *old(self)
                        &&& (old(fs).has_path(dest) || !old(fs).has_file(old(self).path())
                            || !old(fs).dirs_view().contains(dir_of(dest)))
                    },
                }
            }),
    {
        let mut target = String::new();
        target.append(path);
        target.push('/');
        target.append(self.name());
        proof {
            assert(target@ =~= path@ + seq!['/'] + name_of(self.path()));
        }
        self.move_new(fs, target.as_str(), cwd)
    }

    /// Removes the file, consuming the handle.
    pub fn del(self, fs: &mut FsModel) -> (r: Result<(), FsError>)
        requires
            old(fs).wf(),
        ensures
            final(fs).wf(),
            final(fs).dirs_view() == old(fs).dirs_view(),
            match r {
                Ok(()) => old(fs).has_file(self.path()) && final(fs).files_view() == old(fs).files_view().remove(find_key(old(fs).files_view(), self.path())),
                Err(e) => !old(fs).has_file(self.path()) && e == FsError::NotFound && final(fs).files_view() == old(fs).files_view(),
            },
    {
        if fs.remove_file(self.inner.full_name()) {
            Ok(())
        } else {
            Err(FsError::NotFound)
        }
    }

    /// Renames the file in place, keeping its extension: the store
    /// entry moves and the handle follows.  A file already standing at
    /// the new name is replaced, as an on-disk rename replaces it.
    pub fn rename(&mut self, fs: &mut FsModel, new_name: &str) -> (r: Result<(), FsError>)
        requires
            old(fs).wf(),
            old(self).wf(),
            crate::pathstr::is_segment(new_name@),
        ensures
            final(fs).wf(),
            final(fs).dirs_view() == old(fs).dirs_view(),
            final(self).stream_state() == old(self).stream_state(),
            ({
                let s = old(self).path();
                let dest = s.take(last_index(s, '/') + 1) + new_name@ + extension_of(s);
                match r {
                    Ok(()) => {
                        &&& old(fs).has_file(s)
                        &&& final(self).path() == dest
                        &&& final(self).wf()
                        &&& (if s == dest {
                            final(fs).files_view() == old(fs).files_view()
                        } else {
                            ({
                                let removed = old(fs).files_view().remove(
                                    find_key(old(fs).files_view(), s),
                                );
                                let k2 = find_key(removed, dest);
                                if k2 >= 0 {
                                    final(fs).files_view() == removed.update(
                                        k2,
                                        (dest, old(fs).content(s)),
                                    )
                                } else {
                                    final(fs).files_view() == removed.push(
                                        (dest, old(fs).content(s)),
                                    )
                                }
                            })
                        })
                    },
                    Err(e) => {
                        &&& final(self).path() == old(self).path()
                        &&& final(fs).files_view() == old(fs).files_view()
                        &&& e == (if !old(fs).has_file(s) {
                            FsError::NotFound
                        } else {
                            FsError::Other
                        })
                        &&& (e == FsError::Other ==> old(fs).has_dir(dest))
                    },
                }
            }),
    {
        proof {
            lemma_last_index(self.path(), '/');
            if last_index(self.path(), '/') == -1 {
                assert(self.path()[0] != '/');
            }
            crate::pathstr::lemma_extension_clean(self.path());
        }
        if !fs.is_file(self.inner.full_name()) {
            return Err(FsError::NotFound);
        }
        let mut nb = self.inner.clone();
        nb.rename(new_name);
        proof {
            let s = self.path();
            let k = last_index(s, '/');
            let a = s.take(k + 1);
            let b = new_name@ + extension_of(s);
            assert(nb@ =~= a + b);
            crate::pathstr::lemma_last_index(b, '/');
            assert(last_index(b, '/') == -1) by {
                if last_index(b, '/') >= 0 {
                    assert(b[last_index(b, '/')] == '/');
                }
            }
            crate::pathstr::lemma_last_index(a, '/');
            assert(a.last() == s[k]);
            assert(last_index(a, '/') == k);
            crate::model::lemma_last_index_concat(a, b, '/');
            assert(last_index(nb@, '/') == k);
            assert(is_canon(nb@)) by {
                assert(nb@[0] == s[0]);
                assert(forall|t: int|
                    0 <= t < nb@.len() ==> #[trigger] nb@[t] == (if t < k + 1 {
                        s[t]
                    } else {
                        b[t - (k + 1)]
                    }));
                assert(nb@.last() == b.last());
                assert(forall|t: int|
                    0 <= t < nb@.len() - 1 ==> !(#[trigger] nb@[t] == '/' && nb@[t + 1]
                        == '/'));
            }
            assert(nb@.len() > 1);
            // the holding directory does not move
            assert(dir_of(nb@) == dir_of(s)) by {
                if k == 0 {
                } else {
                    assert(dir_of(nb@) =~= dir_of(s));
                }
            }
            // a stored file's directory is stored
            crate::model::lemma_find_key(fs.files_view(), s);
            let kf = find_key(fs.files_view(), s);
            assert(fs.files_view()[kf].0 == s);
            assert(fs.dirs_view().contains(dir_of(fs.files_view()[kf].0)));
        }
        match fs.move_entry(self.inner.full_name(), nb.full_name()) {
            Ok(()) => {
                self.inner = nb;
                Ok(())
            },
            Err(e) => Err(e),
        }
    }

    /// Replaces the extension, renaming the stored file along: the
    /// trailing extension of the name is swapped for the given one, or
    /// one is appended.
    pub fn set_extension(&mut self, fs: &mut FsModel, extension: &str) -> (r: Result<
        (),
        FsError,
    >)
        requires
            old(fs).wf(),
            old(self).wf(),
            name_of(old(self).path()).len() > 0,
            forall|i: int|
                0 <= i < extension@.len() ==> #[trigger] extension@[i] != '/' && extension@[i]
                    != '\\' && extension@[i] != '?',
        ensures
            final(fs).wf(),
            final(fs).dirs_view() == old(fs).dirs_view(),
            final(self).stream_state() == old(self).stream_state(),
            ({
                let s = old(self).path();
                let dest = crate::pbuilder::set_extension_spec(s, extension@);
                match r {
                    Ok(()) => {
                        &&& old(fs).has_file(s)
                        &&& final(self).path() == dest
                        &&& (if s == dest {
                            final(fs).files_view() == old(fs).files_view()
                        } else {
                            ({
                                let removed = old(fs).files_view().remove(
                                    find_key(old(fs).files_view(), s),
                                );
                                let k2 = find_key(removed, dest);
                                if k2 >= 0 {
                                    final(fs).files_view() == removed.update(
                                        k2,
                                        (dest, old(fs).content(s)),
                                    )
                                } else {
                                    final(fs).files_view() == removed.push(
                                        (dest, old(fs).content(s)),
                                    )
                                }
                            })
                        })
                    },
                    Err(e) => {
                        &&& final(self).path() == old(self).path()
                        &&& final(fs).files_view() == old(fs).files_view()
                        &&& e == (if !old(fs).has_file(s) {
                            FsError::NotFound
                        } else {
                            FsError::Other
                        })
                        &&& (e == FsError::Other ==> old(fs).has_dir(dest))
                    },
                }
            }),
    {
        proof {
            lemma_last_index(self.path(), '/');
            if last_index(self.path(), '/') == -1 {
                assert(self.path()[0] != '/');
            }
            crate::pathstr::lemma_extension_clean(self.path());
        }
        if !fs.is_file(self.inner.full_name()) {
            return Err(FsError::NotFound);
        }
        let mut nb = self.inner.clone();
        nb.set_extension(extension);
        proof {
            let s = self.path();
            let k = last_index(s, '/');
            let el = extension_of(s).len() as int;
            let a = s.take(s.len() - el);
            let b: Seq<char> = if extension@.len() > 0 && extension@[0] == '.' {
                extension@
            } else {
                seq!['.'] + extension@
            };
            assert(nb@ =~= a + b);
            // the kept part still ends after the last separator
            assert(a.len() > k + 1) by {
                assert(name_of(s).len() == s.len() - k - 1);
            }
            crate::pathstr::lemma_last_index(b, '/');
            assert(last_index(b, '/') == -1) by {
                if last_index(b, '/') >= 0 {
                    assert(b[last_index(b, '/')] == '/');
                }
            }
            crate::pathstr::lemma_last_index(a, '/');
            assert(forall|t: int| 0 <= t < a.len() ==> #[trigger] a[t] == s[t]);
            assert(a[k] == '/');
            assert(last_index(a, '/') == k) by {
                if last_index(a, '/') > k {
                    assert(s[last_index(a, '/')] != '/');
                }
                if last_index(a, '/') < k {
                    assert(a[k] != '/');
                }
            }
            crate::model::lemma_last_index_concat(a, b, '/');
            assert(last_index(nb@, '/') == k);
            assert(is_canon(nb@)) by {
                assert(nb@[0] == s[0]);
                assert(forall|t: int|
                    0 <= t < nb@.len() ==> #[trigger] nb@[t] == (if t < a.len() {
                        s[t]
                    } else {
                        b[t - a.len()]
                    }));
                assert(a.last() == s[a.len() - 1]);
                assert(a.last() != '/') by {
                    assert(s[a.len() - 1] != '/');
                }
                assert(nb@.last() == b.last());
                assert(forall|t: int|
                    0 <= t < nb@.len() - 1 ==> !(#[trigger] nb@[t] == '/' && nb@[t + 1]
                        == '/'));
            }
            assert(nb@.len() > 1);
            assert(dir_of(nb@) == dir_of(s)) by {
                if k == 0 {
                } else {
                    assert(dir_of(nb@) =~= dir_of(s));
                }
            }
            crate::model::lemma_find_key(fs.files_view(), s);
            let kf = find_key(fs.files_view(), s);
            assert(fs.files_view()[kf].0 == s);
            assert(fs.dirs_view().contains(dir_of(fs.files_view()[kf].0)));
        }
        match fs.move_entry(self.inner.full_name(), nb.full_name()) {
            Ok(()) => {
                self.inner = nb;
                Ok(())
            },
            Err(e) => Err(e),
        }
    }

    /// This handle as a file-or-directory handle.
    pub fn to_file_dir(self) -> (r: crate::fd::FileDir)
        ensures
            r is File,
            r.path() == self.path(),
    {
        crate::fd::FileDir::File(self)
    }

    /// Whether this file and another hold exactly the same bytes.  Two
    /// handles compare equal only when both files exist and their
    /// contents agree; any failure to read makes them unequal.
    pub fn is_eq(&self, other: &FileInfo, fs: &FsModel) -> (r: bool)
        ensures
            r == (fs.has_file(self.path()) && fs.has_file(other.path()) && fs.content(
                self.path(),
            ) == fs.content(other.path())),
    {
        let a = match fs.read_file(self.inner.full_name()) {
            Some(v) => v,
            None => {
                return false;
            },
        };
        let b = match fs.read_file(other.inner.full_name()) {
            Some(v) => v,
            None => {
                return false;
            },
        };
        if a.len() != b.len() {
            proof {
                assert(fs.content(self.path()) != fs.content(other.path()));
            }
            return false;
        }
        let n = a.len();
        let mut i: usize = 0;
        while i < n
            invariant
                i <= n,
                n == a@.len(),
                n == b@.len(),
                a@ == fs.content(self.path()),
                b@ == fs.content(other.path()),
                fs.has_file(self.path()),
                fs.has_file(other.path()),
                forall|j: int| 0 <= j < i ==> a@[j] == b@[j],
            decreases n - i,
        {
            if a[i] != b[i] {
                proof {
                    let ci: int = i as int;
                    assert(fs.content(self.path())[ci] != fs.content(other.path())[ci]);
                }
                return false;
            }
            i = i + 1;
        }
        proof {
            assert(a@ =~= b@);
        }
        true
    }
}

/// Two character strings equal after folding ASCII letters to one
/// case.
pub open spec fn ascii_eq_fold(a: Seq<char>, b: Seq<char>) -> bool {
    a.len() == b.len() && forall|t: int|
        0 <= t < a.len() ==> crate::symbols::lower_code(#[trigger] a[t] as int)
            == crate::symbols::lower_code(b[t] as int)
}

/// Whether two strings are equal up to ASCII letter case.
pub fn str_eq_fold(a: &str, b: &str) -> (r: bool)
    ensures
        r == ascii_eq_fold(a@, b@),
{
    let n = a.unicode_len();
    let m = b.unicode_len();
    if n != m {
        return false;
    }
    let mut t: usize = 0;
    while t < n
        invariant
            t <= n,
            n == a@.len(),
            n == b@.len(),
            forall|j: int|
                0 <= j < t ==> crate::symbols::lower_code(#[trigger] a@[j] as int)
                    == crate::symbols::lower_code(b@[j] as int),
        decreases n - t,
    {
        let x = crate::symbols::Symbols::to_lower(&a.get_char(t));
        let y = crate::symbols::Symbols::to_lower(&b.get_char(t));
        if (x as u32) != (y as u32) {
            return false;
        }
        t = t + 1;
    }
    true
}

/// A chunk with its trailing delimiter removed, and a carriage return
/// before a removed newline removed with it.
pub open spec fn strip_delim(buf: Seq<u8>, byte: u8) -> Seq<u8> {
    if buf.len() > 0 && buf.last() == byte {
        let s1 = buf.drop_last();
        if byte == 10 && s1.len() > 0 && s1.last() == 13 {
            s1.drop_last()
        } else {
            s1
        }
    } else {
        buf
    }
}

/// Pushing a fresh entry at the back does not move the first position of
/// an existing key.
proof fn lemma_find_key_push_front_stable(fs: crate::model::FileSeq, e: (Seq<char>, Seq<u8>), p: Seq<char>)
    requires
        find_key(fs, p) >= 0,
    ensures
        find_key(fs.push(e), p) == find_key(fs, p),
        fs.push(e)[find_key(fs, p)] == fs[find_key(fs, p)],
    decreases fs.len(),
{
    lemma_find_key(fs, p);
    lemma_find_key(fs.push(e), p);
    let k = find_key(fs, p);
    let k2 = find_key(fs.push(e), p);
    assert(fs.push(e)[k] == fs[k]);
    assert(fs[k].0 == p);
    if k2 > k {
        assert(fs.push(e)[k].0 != p);
    }
    if k2 < k {
        assert(fs.push(e)[k2].0 == p);
        assert(fs[k2].0 == p);
    }
}

/// After removing the entry at `k` (holding key `p`, distinct from
/// `q`), the key `q` keeps its entry and `p` is gone when it stood only
/// at `k`.
proof fn lemma_removed_key_facts(fs: crate::model::FileSeq, k: int, p: Seq<char>, q: Seq<char>)
    requires
        0 <= k < fs.len(),
        fs[k].0 == p,
        p != q,
        find_key(fs, q) >= 0,
        find_key(fs, p) == k,
        forall|j: int| 0 <= j < fs.len() && j != k ==> (#[trigger] fs[j].0) != p,
    ensures
        find_key(fs.remove(k), p) == -1,
        find_key(fs.remove(k), q) >= 0,
        fs.remove(k)[find_key(fs.remove(k), q)].1 == fs[find_key(fs, q)].1,
{
    let res = fs.remove(k);
    lemma_find_key(fs, p);
    lemma_find_key(fs, q);
    lemma_find_key(res, p);
    lemma_find_key(res, q);
    assert forall|i: int| 0 <= i < res.len() implies #[trigger] res[i] == (if i < k {
        fs[i]
    } else {
        fs[i + 1]
    }) by {}
    if find_key(res, p) >= 0 {
        let w = find_key(res, p);
        assert(res[w].0 == p);
    }
    let kq = find_key(fs, q);
    let wq = if kq < k {
        kq
    } else {
        kq - 1
    };
    assert(res[wq].0 == q);
    if find_key(res, q) == -1 {
        assert(res[wq].0 != q);
    }
    let rq = find_key(res, q);
    // first occurrences line up: anything before maps back into `fs`
    assert(res[rq].0 == q);
    let back = if rq < k {
        rq
    } else {
        rq + 1
    };
    assert(fs[back].0 == q);
    assert(back >= kq);
    if back > kq {
        // an earlier occurrence of q in fs would appear earlier in res
        let wq2 = if kq < k {
            kq
        } else {
            kq - 1
        };
        assert(res[wq2].0 == q);
        assert(wq2 < rq);
        assert(res[wq2].0 != q);
    }
    assert(res[rq].1 == fs[kq].1);
}

} // verus!
