//! Where the bytes come from.

use vstd::prelude::*;

verus! {

/// Why a read or a scan failed.
#[derive(Debug, Clone, PartialEq, Eq)]
pub struct Error {
    pub message: String,
}

impl View for Error {
    type V = Seq<char>;

    open spec fn view(&self) -> Seq<char> {
        self.message@
    }
}

impl Error {
    /// An error with this message.
    pub fn other(message: &str) -> (e: Error)
        ensures
            e@ == message@,
    {
        Error { message: message.to_owned() }
    }
}

/// What `r` is to the reader of a specification.
pub open spec fn bytes_or_message(r: Result<Vec<u8>, Error>) -> Result<Seq<u8>, Seq<char>> {
    match r {
        Ok(b) => Ok(b@),
        Err(e) => Err(e@),
    }
}

/// Random-access, read-only bytes: a device, an image, or a test buffer.
///
/// A source answers the same read the same way each time: with the bytes that stand
/// there, or with an error. Which reads succeed is the source's own affair.
pub trait Source {
    /// What reading `n` bytes at `off` gives: the bytes, or the message of the error.
    spec fn at(&self, off: u64, n: nat) -> Result<Seq<u8>, Seq<char>>;

    /// A read that succeeds gives as many bytes as were asked for.
    proof fn fills(&self, off: u64, n: nat)
        ensures
            self.at(off, n) matches Ok(b) ==> b.len() == n,
    ;

    /// The length in bytes that the source states.
    spec fn size(&self) -> u64;

    fn read_at(&self, off: u64, buf: &mut [u8]) -> (r: Result<(), Error>)
        ensures
            final(buf)@.len() == old(buf)@.len(),
            match r {
                Ok(()) => self.at(off, old(buf)@.len()) == Ok::<Seq<u8>, Seq<char>>(final(buf)@),
                Err(e) => self.at(off, old(buf)@.len()) == Err::<Seq<u8>, Seq<char>>(e@),
            },
    ;

    fn len(&self) -> (n: u64)
        ensures
            n == self.size(),
    ;
}

impl Source for Vec<u8> {
    open spec fn at(&self, off: u64, n: nat) -> Result<Seq<u8>, Seq<char>> {
        if off + n <= self@.len() {
            Ok(self@.subrange(off as int, off + n))
        } else {
            Err("past the end"@)
        }
    }

    proof fn fills(&self, off: u64, n: nat) {
    }

    open spec fn size(&self) -> u64 {
        self@.len() as u64
    }

    fn read_at(&self, off: u64, buf: &mut [u8]) -> (r: Result<(), Error>) {
        let total = Vec::len(self);
        let n = buf.len();
        if off > total as u64 || n as u64 > total as u64 - off {
            return Err(Error::other("past the end"));
        }
        let start = off as usize;
        let mut i: usize = 0;
        while i < n
            invariant
                i <= n,
                n == buf@.len(),
                total == self@.len(),
                start + n <= total,
                forall|k: int| 0 <= k < i ==> buf@[k] == self@[start + k],
            decreases n - i,
        {
            buf[i] = self[start + i];
            i += 1;
        }
        assert(buf@ =~= self@.subrange(off as int, off + n));
        Ok(())
    }

    fn len(&self) -> (n: u64) {
        Vec::len(self) as u64
    }
}

/// Whether the source holds the bytes `disk`: every read inside them gives what stands there.
pub open spec fn holds<S: Source + ?Sized>(src: &S, disk: Seq<u8>) -> bool {
    forall|o: u64, n: nat|
        o + n <= disk.len() ==> (#[trigger] src.at(o, n)) == Ok::<Seq<u8>, Seq<char>>(disk.subrange(o as int, o + n))
}

/// A buffer holds its own bytes.
pub proof fn buffer_holds_its_bytes(disk: Vec<u8>)
    ensures
        holds(&disk, disk@),
        disk@.len() <= u64::MAX ==> disk.size() == disk@.len(),
{
}

/// A source that reads through a function: given an offset and a number of bytes, it gives
/// those bytes, or an error. The function has to be steady: what it reads from must not
/// change while the source is in use.
pub struct Reader<F: Fn(u64, usize) -> Result<Vec<u8>, Error>> {
    read: F,
    len: u64,
}

/// Whether `f` can be asked for any bytes, and answers the same question the same way.
pub open spec fn steady<F: Fn(u64, usize) -> Result<Vec<u8>, Error>>(f: F) -> bool {
    &&& forall|o: u64, n: usize| call_requires(f, (o, n))
    &&& forall|o: u64, n: usize, a: Result<Vec<u8>, Error>, b: Result<Vec<u8>, Error>|
        #![trigger call_ensures(f, (o, n), a), call_ensures(f, (o, n), b)]
        call_ensures(f, (o, n), a) && call_ensures(f, (o, n), b) ==> bytes_or_message(a) == bytes_or_message(b)
}

/// What `f` answers when asked for the `n` bytes at `o`.
pub open spec fn answer<F: Fn(u64, usize) -> Result<Vec<u8>, Error>>(f: F, o: u64, n: usize) -> Result<Seq<u8>, Seq<char>> {
    bytes_or_message(choose|r: Result<Vec<u8>, Error>| call_ensures(f, (o, n), r))
}

impl<F: Fn(u64, usize) -> Result<Vec<u8>, Error>> Reader<F> {
    #[verifier::type_invariant]
    spec fn inv(self) -> bool {
        steady(self.read)
    }

    /// The function that is read through.
    pub closed spec fn function(self) -> F {
        self.read
    }

    /// The length that was given.
    pub closed spec fn given_len(self) -> u64 {
        self.len
    }

    /// A source of `len` bytes that `read` gives.
    pub fn new(read: F, len: u64) -> (r: Self)
        requires
            steady(read),
        ensures
            r.function() == read,
            r.given_len() == len,
    {
        Reader { read, len }
    }
}

impl<F: Fn(u64, usize) -> Result<Vec<u8>, Error>> Source for Reader<F> {
    /// What the function answers; an answer of another length than asked for is an error.
    open spec fn at(&self, off: u64, n: nat) -> Result<Seq<u8>, Seq<char>> {
        match answer(self.function(), off, n as usize) {
            Ok(b) => if b.len() == n {
                Ok(b)
            } else {
                Err("short read"@)
            },
            Err(e) => Err(e),
        }
    }

    proof fn fills(&self, off: u64, n: nat) {
    }

    open spec fn size(&self) -> u64 {
        self.given_len()
    }

    fn read_at(&self, off: u64, buf: &mut [u8]) -> (r: Result<(), Error>) {
        proof {
            use_type_invariant(&*self);
        }
        let n = buf.len();
        let r = (self.read)(off, n);
        assert(bytes_or_message(r) == answer(self.function(), off, n));
        let b = match r {
            Ok(b) => b,
            Err(e) => return Err(e),
        };
        if b.len() != n {
            return Err(Error::other("short read"));
        }
        let mut i: usize = 0;
        while i < n
            invariant
                i <= n,
                n == buf@.len(),
                n == b@.len(),
                forall|k: int| 0 <= k < i ==> buf@[k] == b@[k],
            decreases n - i,
        {
            buf[i] = b[i];
            i += 1;
        }
        assert(buf@ =~= b@);
        Ok(())
    }

    fn len(&self) -> (n: u64) {
        self.len
    }
}

/// The `len` bytes of `src` at `off`.
pub fn read<S: Source + ?Sized>(src: &S, off: u64, len: usize) -> (r: Result<Vec<u8>, Error>)
    ensures
        bytes_or_message(r) == src.at(off, len as nat),
        r is Ok ==> r->Ok_0@.len() == len,
{
    let mut b: Vec<u8> = vec![0u8; len];
    match src.read_at(off, b.as_mut_slice()) {
        Ok(()) => Ok(b),
        Err(e) => Err(e),
    }
}

} // verus!
