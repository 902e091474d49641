//! The device that a file system is stored on.
//!
//! The bytes of a device are a sequence of fixed length. A device that stores
//! what it is given answers each request as [`fetch`] and [`put`] say; the
//! contracts in this crate state what an operation does on such a device,
//! whatever the device holds, and that a failed request makes it fail.

use vstd::prelude::*;
use crate::bytes::overwrite;
use crate::errno::Errno;

verus! {

/// What a device that holds `d` answers to a read: nothing, when some of the
/// bytes asked for are not there.
pub open spec fn fetch(d: Seq<u8>, addr: int, len: int) -> Option<Seq<u8>> {
    if len == 0 {
        Some(Seq::empty())
    } else if 0 <= addr && addr + len <= d.len() {
        Some(d.subrange(addr, addr + len))
    } else {
        None
    }
}

/// What a device that held `d` holds after a write: nothing, when the write is
/// refused because some of the bytes have no place on the device.
pub open spec fn put(d: Seq<u8>, addr: int, data: Seq<u8>) -> Option<Seq<u8>> {
    if data.len() == 0 {
        Some(d)
    } else if 0 <= addr && addr + data.len() <= d.len() {
        Some(overwrite(d, addr, data))
    } else {
        None
    }
}

/// A request to the medium, and what it was answered.
pub enum Request {
    /// `len` bytes from `addr` on were asked for.
    Read { addr: u64, len: usize, reply: Option<Seq<u8>> },
    /// `data` was to be stored from `addr` on.
    Write { addr: u64, data: Seq<u8>, done: bool },
}

/// The bytes that the medium replied with.
pub open spec fn reply_of(reply: Option<Vec<u8>>) -> Option<Seq<u8>> {
    match reply {
        Some(b) => Some(b@),
        None => None,
    }
}

/// The medium behind a device. Nothing is taken for granted of an
/// implementation: its replies may be anything.
pub trait Storage: Sized {
    /// The `len` bytes from `addr` on, or `None` when they cannot all be read.
    fn read_exact_at(&mut self, addr: u64, len: usize) -> (reply: Option<Vec<u8>>);

    /// Stores all of `data` from `addr` on, and says whether that was done.
    fn write_all_at(&mut self, addr: u64, data: &Vec<u8>) -> (done: bool);
}

/// What a medium that held `c` holds after a request, if it answers as
/// [`fetch`] and [`put`] say. `None` if the reply contradicts that.
pub open spec fn after(c: Option<Seq<u8>>, request: Request) -> Option<Seq<u8>> {
    match (c, request) {
        (Some(c), Request::Read { addr, len, reply }) => if fetch(c, addr as int, len as int)
            == reply {
            Some(c)
        } else {
            None
        },
        (Some(c), Request::Write { addr, data, done }) => match put(c, addr as int, data) {
            Some(c2) => if done {
                Some(c2)
            } else {
                None
            },
            None => if done {
                None
            } else {
                Some(c)
            },
        },
        (None, _) => None,
    }
}

/// What a medium that held `d` holds after the requests, if it answers as
/// [`fetch`] and [`put`] say. `None` if a reply contradicts that.
pub open spec fn replay(d: Seq<u8>, requests: Seq<Request>) -> Option<Seq<u8>>
    decreases requests.len(),
{
    if requests.len() == 0 {
        Some(d)
    } else {
        after(replay(d, requests.drop_last()), requests.last())
    }
}

/// What a medium that held `d` and answers as [`fetch`] and [`put`] say holds
/// after the first `n` requests.
pub open spec fn held(d: Seq<u8>, requests: Seq<Request>, n: int) -> Seq<u8>
    decreases n,
{
    if n <= 0 {
        d
    } else {
        let c = held(d, requests, n - 1);
        match requests[n - 1] {
            Request::Read { .. } => c,
            Request::Write { addr, data, .. } => match put(c, addr as int, data) {
                Some(c2) => c2,
                None => c,
            },
        }
    }
}

/// The reply is the one that a medium gives that holds `c`.
pub open spec fn as_held(c: Seq<u8>, request: Request) -> bool {
    match request {
        Request::Read { addr, len, reply } => reply == fetch(c, addr as int, len as int),
        Request::Write { addr, data, done } => done == (put(c, addr as int, data) is Some),
    }
}

/// The requests go together with what the medium held before them exactly if
/// each was answered as a medium with these contents answers it.
pub proof fn law_true_replies_are_never_contradicted(d: Seq<u8>, requests: Seq<Request>)
    ensures
        replay(d, requests) == (if forall|i: int|
            0 <= i < requests.len() ==> as_held(held(d, requests, i), #[trigger] requests[i]) {
            Some(held(d, requests, requests.len() as int))
        } else {
            None
        }),
    decreases requests.len(),
{
    if requests.len() > 0 {
        let n = requests.len() - 1;
        let before = requests.drop_last();
        law_true_replies_are_never_contradicted(d, before);
        assert forall|i: int| 0 <= i <= n implies held(d, before, i) == held(d, requests, i) by {
            lemma_held(d, before, requests, i);
        }
        if forall|i: int|
            0 <= i < before.len() ==> as_held(held(d, before, i), #[trigger] before[i]) {
            assert forall|i: int| 0 <= i < n implies as_held(
                held(d, requests, i),
                #[trigger] requests[i],
            ) by {
                assert(before[i] == requests[i]);
            }
            if as_held(held(d, requests, n), requests[n]) {
                assert forall|i: int| 0 <= i < requests.len() implies as_held(
                    held(d, requests, i),
                    #[trigger] requests[i],
                ) by {}
            }
        } else {
            let i = choose|i: int|
                0 <= i < before.len() && !as_held(held(d, before, i), #[trigger] before[i]);
            assert(before[i] == requests[i]);
            assert(!as_held(held(d, requests, i), requests[i]));
        }
    }
}

/// Later requests do not change what was held before them.
proof fn lemma_held(d: Seq<u8>, before: Seq<Request>, requests: Seq<Request>, i: int)
    requires
        requests.len() > 0,
        before == requests.drop_last(),
        i <= before.len(),
    ensures
        held(d, before, i) == held(d, requests, i),
    decreases i,
{
    if i > 0 {
        lemma_held(d, before, requests, i - 1);
        assert(before[i - 1] == requests[i - 1]);
    }
}

/// A write is read back, and changes only its own range: a byte that is read
/// is the one that was written there, or the one that was there before.
pub proof fn law_write_is_read_back(
    d: Seq<u8>,
    at: int,
    data: Seq<u8>,
    addr: int,
    len: int,
)
    requires
        put(d, at, data) is Some,
        0 <= addr,
        0 <= len,
    ensures
        ({
            let d2 = put(d, at, data)->Some_0;
            &&& d2.len() == d.len()
            &&& match fetch(d2, addr, len) {
                Some(b) => {
                    &&& b.len() == len
                    &&& len > 0 ==> addr + len <= d.len()
                    &&& forall|j: int|
                        0 <= j < len ==> #[trigger] b[j] == if at <= addr + j < at + data.len() {
                            data[addr + j - at]
                        } else {
                            d[addr + j]
                        }
                },
                None => len > 0 && addr + len > d.len(),
            }
        }),
{
}

/// Reads leave what is held as it was.
proof fn lemma_held_through_reads(d: Seq<u8>, requests: Seq<Request>, i: int, j: int)
    requires
        0 <= i <= j <= requests.len(),
        forall|k: int| i <= k < j ==> #[trigger] requests[k] is Read,
    ensures
        held(d, requests, j) == held(d, requests, i),
    decreases j - i,
{
    if i < j {
        lemma_held_through_reads(d, requests, i, j - 1);
        assert(requests[j - 1] is Read);
    }
}

/// Of a medium that answers as [`fetch`] and [`put`] say, a read gets what the
/// last write stored, where it stored something, and what was there before it
/// elsewhere. It fails exactly if some of the bytes are not there.
pub proof fn law_true_medium_reads_back(d: Seq<u8>, requests: Seq<Request>, i: int, j: int)
    requires
        forall|k: int|
            0 <= k < requests.len() ==> as_held(held(d, requests, k), #[trigger] requests[k]),
        0 <= i < j < requests.len(),
        requests[i] is Write,
        requests[i]->done,
        forall|k: int| i < k <= j ==> #[trigger] requests[k] is Read,
    ensures
        ({
            let before = held(d, requests, i);
            let (at, data) = (requests[i]->Write_addr, requests[i]->data);
            let (addr, len) = (requests[j]->Read_addr, requests[j]->len);
            match requests[j]->reply {
                Some(b) => {
                    &&& b.len() == len
                    &&& len > 0 ==> addr + len <= before.len()
                    &&& forall|n: int|
                        0 <= n < len ==> #[trigger] b[n] == if at <= addr + n < at + data.len() {
                            data[addr + n - at]
                        } else {
                            before[addr + n]
                        }
                },
                None => len > 0 && addr + len > before.len(),
            }
        }),
{
    let before = held(d, requests, i);
    let (at, data) = (requests[i]->Write_addr, requests[i]->data);
    let (addr, len) = (requests[j]->Read_addr, requests[j]->len);
    lemma_held_through_reads(d, requests, i + 1, j);
    assert(requests[j] is Read);
    assert(as_held(before, requests[i]));
    assert(as_held(held(d, requests, j), requests[j]));
    law_write_is_read_back(before, at as int, data, addr as int, len as int);
}

/// The last `count` requests.
pub open spec fn latest(requests: Seq<Request>, count: nat) -> Seq<Request> {
    if count <= requests.len() {
        requests.subrange(requests.len() - count, requests.len() as int)
    } else {
        requests
    }
}

/// The request was not fulfilled.
pub open spec fn has_failed(request: Request) -> bool {
    match request {
        Request::Read { len, reply, .. } => !(reply matches Some(b) && b.len() == len),
        Request::Write { done, .. } => !done,
    }
}

/// How many of the requests were not fulfilled.
pub open spec fn failed(requests: Seq<Request>) -> nat
    decreases requests.len(),
{
    if requests.len() == 0 {
        0
    } else {
        failed(requests.drop_last()) + (if has_failed(requests.last()) {
            1nat
        } else {
            0
        })
    }
}

/// A value with a fixed layout on the device.
pub trait DeviceData: Sized {
    /// The bytes that stand for the value.
    spec fn encode(self) -> Seq<u8>;

    /// How many bytes there are.
    spec fn encoded_size() -> nat;

    proof fn encoding_has_size(self)
        ensures
            self.encode().len() == Self::encoded_size(),
    ;

    /// No two values share their bytes.
    proof fn encoding_is_injective(a: Self, b: Self)
        requires
            a.encode() == b.encode(),
        ensures
            a == b,
    ;

    /// Bytes of the right number stand for a value.
    proof fn every_encoding(bytes: Seq<u8>) -> (value: Self)
        requires
            bytes.len() == Self::encoded_size(),
        ensures
            value.encode() == bytes,
    ;

    fn size() -> (n: usize)
        ensures
            n == Self::encoded_size(),
    ;

    fn from_bytes(bytes: &Vec<u8>) -> (value: Self)
        requires
            bytes@.len() == Self::encoded_size(),
        ensures
            value.encode() == bytes@,
    ;

    fn to_bytes(&self) -> (bytes: Vec<u8>)
        ensures
            bytes@ == self.encode(),
    ;
}

/// The value that `bytes` stand for.
pub open spec fn decode<T: DeviceData>(bytes: Seq<u8>) -> T {
    choose|value: T| #[trigger] value.encode() == bytes
}

/// A value can be read back from its bytes.
pub proof fn lemma_decode<T: DeviceData>(value: T)
    ensures
        decode::<T>(value.encode()) == value,
{
    let back = decode::<T>(value.encode());
    assert(value.encode() == value.encode());
    T::encoding_is_injective(back, value);
}

/// Bytes of the right number are those of the value that they stand for.
pub proof fn lemma_encode<T: DeviceData>(bytes: Seq<u8>)
    requires
        bytes.len() == T::encoded_size(),
    ensures
        decode::<T>(bytes).encode() == bytes,
{
    let value = T::every_encoding(bytes);
    assert(value.encode() == bytes);
}

/// A value read from the device, where the read succeeded.
pub open spec fn decoded<T: DeviceData>(bytes: Option<Seq<u8>>) -> Result<T, Errno> {
    match bytes {
        Some(b) => Ok(decode::<T>(b)),
        None => Err(Errno::EIO),
    }
}

/// The bytes that a read brought, if it succeeded.
pub open spec fn bytes_of(r: Result<Vec<u8>, Errno>) -> Option<Seq<u8>> {
    match r {
        Ok(b) => Some(b@),
        Err(_) => None,
    }
}

/// A device. It keeps, in ghost state, the requests to its medium, and how many
/// of them came since a checkpoint.
pub struct Device<S> {
    storage: S,
    requests: Ghost<Seq<Request>>,
    count: Ghost<nat>,
}

impl<S: Storage> Device<S> {
    /// The medium.
    pub closed spec fn medium(self) -> S {
        self.storage
    }

    /// All requests so far, with the replies to them.
    pub closed spec fn asked(self) -> Seq<Request> {
        self.requests@
    }

    /// The requests since the last checkpoint.
    pub closed spec fn since(self) -> Seq<Request> {
        latest(self.requests@, self.count@)
    }

    /// What the device holds, if it held `d` at the last checkpoint and has
    /// since answered every request as [`fetch`] and [`put`] say. `None` if a
    /// reply since then contradicts that.
    pub closed spec fn now(self, d: Seq<u8>) -> Option<Seq<u8>> {
        replay(d, self.since())
    }

    /// How many requests have failed.
    pub closed spec fn faults(self) -> nat {
        failed(self.requests@)
    }

    /// What [`Device::now`] and [`Device::faults`] say follows from the
    /// requests and the replies to them.
    pub proof fn law_requests_tell(self, d: Seq<u8>)
        ensures
            self.now(d) == replay(d, self.since()),
            self.faults() == failed(self.asked()),
            exists|count: nat| self.since() == #[trigger] latest(self.asked(), count),
    {
        assert(self.since() == latest(self.asked(), self.count@));
    }

    /// Of a device that held `d` at the last checkpoint and has since given
    /// only replies that agree with what it held, it is known what it holds.
    pub proof fn law_true_device_is_known(self, d: Seq<u8>)
        requires
            forall|i: int|
                0 <= i < self.since().len() ==> as_held(
                    held(d, self.since(), i),
                    #[trigger] self.since()[i],
                ),
        ensures
            self.now(d) == Some(held(d, self.since(), self.since().len() as int)),
    {
        law_true_replies_are_never_contradicted(d, self.since());
    }

    /// A device on a medium.
    pub fn new(storage: S) -> (device: Self)
        ensures
            device.medium() == storage,
            device.asked().len() == 0,
            device.since().len() == 0,
            forall|d: Seq<u8>| #[trigger] device.now(d) == Some(d),
            device.faults() == 0,
    {
        Device { storage, requests: Ghost(Seq::empty()), count: Ghost(0) }
    }

    /// Makes this moment the one that [`Device::now`] counts from. It asks the
    /// medium nothing.
    pub fn checkpoint(&mut self)
        ensures
            final(self).medium() == old(self).medium(),
            final(self).asked() == old(self).asked(),
            final(self).since().len() == 0,
            forall|d: Seq<u8>| #[trigger] final(self).now(d) == Some(d),
            final(self).faults() == old(self).faults(),
    {
        self.count = Ghost(0);
    }

    /// Reads `len` bytes from `addr` on. One call, with these arguments, takes
    /// the medium from what it was to what it is, and its reply is on record.
    pub fn read_at(&mut self, len: usize, addr: u64) -> (r: Result<Vec<u8>, Errno>)
        ensures
            ({
                let request = final(self).asked().last();
                &&& exists|medium: &mut S, given: Option<Vec<u8>>|
                    {
                        &&& *medium == old(self).medium()
                        &&& *final(medium) == final(self).medium()
                        &&& #[trigger] call_ensures(S::read_exact_at, (medium, addr, len), given)
                        &&& request->reply == reply_of(given)
                    }
                &&& request matches Request::Read { addr: a, len: n, reply } && {
                    &&& a == addr
                    &&& n == len
                    &&& match r {
                        Ok(b) => reply == Some(b@) && b@.len() == len,
                        Err(e) => e == Errno::EIO && has_failed(request),
                    }
                }
                &&& final(self).has_made(*old(self), request)
            }),
            final(self).faults() == old(self).faults() + (if r is Err {
                1nat
            } else {
                0
            }),
            forall|d: Seq<u8>| #[trigger]
                final(self).now(d) matches Some(c) ==> {
                    &&& old(self).now(d) == Some(c)
                    &&& fetch(c, addr as int, len as int) == bytes_of(r)
                },
    {
        let reply = self.storage.read_exact_at(addr, len);
        let ghost request = Request::Read { addr, len, reply: reply_of(reply) };
        self.requests = Ghost(self.requests@.push(request));
        self.count = Ghost(self.count@ + 1);
        proof {
            self.lemma_one_more(*old(self), request);
        }
        match reply {
            Some(b) => if b.len() == len {
                Ok(b)
            } else {
                Err(Errno::EIO)
            },
            None => Err(Errno::EIO),
        }
    }

    /// Writes `buf` from `addr` on. One call, with these arguments, takes the
    /// medium from what it was to what it is, and its reply is on record.
    pub fn write_at(&mut self, buf: &Vec<u8>, addr: u64) -> (r: Result<(), Errno>)
        ensures
            ({
                let request = Request::Write { addr, data: buf@, done: r is Ok };
                &&& exists|medium: &mut S|
                    {
                        &&& *medium == old(self).medium()
                        &&& *final(medium) == final(self).medium()
                        &&& #[trigger] call_ensures(S::write_all_at, (medium, addr, buf), r is Ok)
                    }
                &&& final(self).has_made(*old(self), request)
            }),
            r matches Err(e) ==> e == Errno::EIO,
            final(self).faults() == old(self).faults() + (if r is Err {
                1nat
            } else {
                0
            }),
    {
        let done: bool = self.storage.write_all_at(addr, buf);
        let ghost request = Request::Write { addr, data: buf@, done };
        self.requests = Ghost(self.requests@.push(request));
        self.count = Ghost(self.count@ + 1);
        proof {
            self.lemma_one_more(*old(self), request);
        }
        if done {
            Ok(())
        } else {
            Err(Errno::EIO)
        }
    }

    /// One more request is on record than `before`, and nothing else differs.
    pub open spec fn has_made(self, before: Self, request: Request) -> bool {
        &&& self.asked() == before.asked().push(request)
        &&& self.since() == before.since().push(request)
        &&& forall|d: Seq<u8>| #[trigger] self.now(d) == after(before.now(d), request)
    }

    proof fn lemma_one_more(self, before: Self, request: Request)
        requires
            self.requests@ == before.requests@.push(request),
            self.count@ == before.count@ + 1,
        ensures
            self.has_made(before, request),
            self.faults() == before.faults() + (if has_failed(request) {
                1nat
            } else {
                0
            }),
    {
        assert(self.since() =~= before.since().push(request));
        assert(self.since().drop_last() =~= before.since());
        assert(self.asked().drop_last() =~= before.asked());
    }

    /// Reads the value that stands at `addr`.
    pub fn load<T: DeviceData>(&mut self, addr: u64) -> (r: Result<Box<T>, Errno>)
        ensures
            final(self).faults() == old(self).faults() + (if r is Err {
                1nat
            } else {
                0
            }),
            r matches Err(e) ==> e == Errno::EIO,
            forall|d: Seq<u8>| #[trigger]
                final(self).now(d) matches Some(c) ==> {
                    &&& old(self).now(d) == Some(c)
                    &&& match r {
                        Ok(value) => Ok(*value),
                        Err(e) => Err(e),
                    } == decoded::<T>(fetch(c, addr as int, T::encoded_size() as int))
                },
    {
        match self.read_at(T::size(), addr) {
            Ok(bytes) => {
                let value = T::from_bytes(&bytes);
                proof {
                    lemma_decode(value);
                }
                Ok(Box::new(value))
            },
            Err(e) => Err(e),
        }
    }

    /// Replaces `obj` by the value that stands at `addr`, and leaves it alone
    /// when that cannot be read.
    pub fn load_in<T: DeviceData>(&mut self, obj: &mut T, addr: u64) -> (r: Result<(), Errno>)
        ensures
            final(self).faults() == old(self).faults() + (if r is Err {
                1nat
            } else {
                0
            }),
            r matches Err(e) ==> e == Errno::EIO,
            r is Err ==> *final(obj) == *old(obj),
            forall|d: Seq<u8>| #[trigger]
                final(self).now(d) matches Some(c) ==> {
                    &&& old(self).now(d) == Some(c)
                    &&& match r {
                        Ok(_) => Ok(*final(obj)),
                        Err(e) => Err(e),
                    } == decoded::<T>(fetch(c, addr as int, T::encoded_size() as int))
                },
    {
        match self.load::<T>(addr) {
            Ok(value) => {
                *obj = *value;
                Ok(())
            },
            Err(e) => Err(e),
        }
    }

    /// Writes `obj` at `addr`.
    pub fn store<T: DeviceData>(&mut self, obj: &T, addr: u64) -> (r: Result<(), Errno>)
        ensures
            r matches Err(e) ==> e == Errno::EIO,
            final(self).faults() == old(self).faults() + (if r is Err {
                1nat
            } else {
                0
            }),
            forall|d: Seq<u8>| #[trigger]
                final(self).now(d) matches Some(c) ==> {
                    &&& old(self).now(d) matches Some(c0)
                    &&& match put(c0, addr as int, obj.encode()) {
                        Some(c1) => r is Ok && c == c1,
                        None => r is Err && c == c0,
                    }
                },
    {
        let bytes = obj.to_bytes();
        self.write_at(&bytes, addr)
    }
}

} // verus!
