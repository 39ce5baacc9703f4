//! The connection pool: open transports keyed by origin (host, port, TLS).
//! A stored connection is handed back for reuse on the next request to the
//! same origin; the pool never opens, closes or validates a transport
//! itself.

use vstd::prelude::*;

verus! {

use crate::url::HttpUrl;

/// A transport operation failed.
#[derive(Debug, Clone, Copy, PartialEq, Eq, Structural)]
pub struct StreamError;

/// A duplex byte stream under one connection. Implementations live outside
/// the library (plain TCP, TLS, or a test double); the library assumes
/// nothing about what they return.
pub trait ReadWrite {
    /// Reads up to `max` bytes; an empty result means end of stream.
    fn read_some(&mut self, max: usize) -> Result<Vec<u8>, StreamError>;

    /// Writes all of `data` to the peer.
    fn write_all(&mut self, data: &[u8]) -> Result<(), StreamError>;

    /// Flushes buffered writes to the peer.
    fn flush(&mut self) -> Result<(), StreamError>;
}

/// One pooled connection: the transport plus the bytes read beyond what the
/// previous response consumed (a persistent connection can leave the start
/// of the next response in the buffer).
pub struct Connection<T: ReadWrite> {
    pub transport: T,
    pub buffer: Vec<u8>,
}

/// One pool slot in the mathematical model: the origin key and the stored
/// connection value.
pub struct PoolSlotView<T: ReadWrite> {
    pub host: Seq<char>,
    pub port: u16,
    pub tls: bool,
    pub conn: Connection<T>,
}

struct PoolSlot<T: ReadWrite> {
    host: String,
    port: u16,
    tls: bool,
    conn: Connection<T>,
}

/// Index of the slot for origin `(host, port, tls)`, or -1 when absent.
pub open spec fn pool_index_of<T: ReadWrite>(
    s: Seq<PoolSlotView<T>>,
    host: Seq<char>,
    port: u16,
    tls: bool,
) -> int
    decreases s.len(),
{
    if s.len() == 0 {
        -1
    } else if s[0].host == host && s[0].port == port && s[0].tls == tls {
        0
    } else {
        let r = pool_index_of(s.subrange(1, s.len() as int), host, port, tls);
        if r < 0 {
            -1
        } else {
            r + 1
        }
    }
}

pub proof fn lemma_pool_index_of<T: ReadWrite>(
    s: Seq<PoolSlotView<T>>,
    host: Seq<char>,
    port: u16,
    tls: bool,
)
    ensures
        pool_index_of(s, host, port, tls) == -1 || (0 <= pool_index_of(s, host, port, tls)
            < s.len()),
        pool_index_of(s, host, port, tls) >= 0 ==> {
            let e = s[pool_index_of(s, host, port, tls)];
            e.host == host && e.port == port && e.tls == tls
        },
        forall|i: int|
            0 <= i < s.len() && (#[trigger] s[i]).host == host && s[i].port == port && s[i].tls
                == tls ==> pool_index_of(s, host, port, tls) >= 0,
        forall|i: int|
            0 <= i < pool_index_of(s, host, port, tls) ==> !((#[trigger] s[i]).host == host
                && s[i].port == port && s[i].tls == tls),
    decreases s.len(),
{
    if s.len() > 0 && !(s[0].host == host && s[0].port == port && s[0].tls == tls) {
        let tail = s.subrange(1, s.len() as int);
        lemma_pool_index_of(tail, host, port, tls);
        assert forall|i: int|
            0 <= i < s.len() && (#[trigger] s[i]).host == host && s[i].port == port && s[i].tls
                == tls implies pool_index_of(s, host, port, tls) >= 0 by {
            if i > 0 {
                assert(tail[i - 1] == s[i]);
            }
        }
        assert forall|i: int| 0 <= i < pool_index_of(s, host, port, tls) implies !((
        #[trigger] s[i]).host == host && s[i].port == port && s[i].tls == tls) by {
            if i > 0 {
                assert(s[i] == tail[i - 1]);
            }
        }
    }
}

/// Open transports keyed by origin, reused across requests in one process.
pub struct ConnectionPool<T: ReadWrite> {
    slots: Vec<PoolSlot<T>>,
}

impl<T: ReadWrite> View for PoolSlot<T> {
    type V = PoolSlotView<T>;

    closed spec fn view(&self) -> PoolSlotView<T> {
        PoolSlotView { host: self.host@, port: self.port, tls: self.tls, conn: self.conn }
    }
}

impl<T: ReadWrite> View for ConnectionPool<T> {
    type V = Seq<PoolSlotView<T>>;

    closed spec fn view(&self) -> Seq<PoolSlotView<T>> {
        self.slots@.map_values(|s: PoolSlot<T>| s@)
    }
}

impl<T: ReadWrite> ConnectionPool<T> {
    /// Origins are unique: at most one connection per (host, port, TLS).
    pub open spec fn wf(&self) -> bool {
        forall|i: int, j: int|
            0 <= i < j < self@.len() ==> !((#[trigger] self@[i]).host == (
            #[trigger] self@[j]).host && self@[i].port == self@[j].port && self@[i].tls
                == self@[j].tls)
    }

    /// The connection pooled for an origin.
    pub open spec fn spec_lookup(&self, host: Seq<char>, port: u16, tls: bool) -> Option<
        Connection<T>,
    > {
        let i = pool_index_of(self@, host, port, tls);
        if i >= 0 {
            Some(self@[i].conn)
        } else {
            None
        }
    }

    /// An empty pool.
    pub fn new() -> (r: ConnectionPool<T>)
        ensures
            r@ == Seq::<PoolSlotView<T>>::empty(),
            r.wf(),
    {
        let r = ConnectionPool { slots: Vec::new() };
        proof {
            assert(r@ =~= Seq::<PoolSlotView<T>>::empty());
        }
        r
    }

    fn find_slot(&self, http_url: &HttpUrl) -> (r: Option<usize>)
        ensures
            match r {
                Some(i) => i == pool_index_of(self@, http_url.host@, http_url.port, http_url.tls)
                    && i < self@.len(),
                None => pool_index_of(self@, http_url.host@, http_url.port, http_url.tls) == -1,
            },
    {
        proof {
            lemma_pool_index_of(self@, http_url.host@, http_url.port, http_url.tls);
        }
        let key = crate::text::chars_of(http_url.host.as_str());
        let mut i: usize = 0;
        while i < self.slots.len()
            invariant
                key@ == http_url.host@,
                i <= self@.len(),
                self@.len() == self.slots@.len(),
                forall|j: int| 0 <= j < self@.len() ==> self@[j] == self.slots@[j]@,
                forall|j: int|
                    0 <= j < i ==> !((#[trigger] self@[j]).host == http_url.host@ && self@[j].port
                        == http_url.port && self@[j].tls == http_url.tls),
                pool_index_of(self@, http_url.host@, http_url.port, http_url.tls) == -1 || (0
                    <= pool_index_of(self@, http_url.host@, http_url.port, http_url.tls)
                    < self@.len() && {
                    let e = self@[pool_index_of(self@, http_url.host@, http_url.port, http_url.tls)];
                    e.host == http_url.host@ && e.port == http_url.port && e.tls == http_url.tls
                }),
                forall|j: int|
                    0 <= j < self@.len() && (#[trigger] self@[j]).host == http_url.host@
                        && self@[j].port == http_url.port && self@[j].tls == http_url.tls
                        ==> pool_index_of(self@, http_url.host@, http_url.port, http_url.tls) >= 0,
                forall|j: int|
                    0 <= j < pool_index_of(self@, http_url.host@, http_url.port, http_url.tls)
                        ==> !((#[trigger] self@[j]).host == http_url.host@ && self@[j].port
                        == http_url.port && self@[j].tls == http_url.tls),
            decreases self@.len() - i,
        {
            let slot_host = crate::text::chars_of(self.slots[i].host.as_str());
            if self.slots[i].port == http_url.port && self.slots[i].tls == http_url.tls
                && crate::text::chars_eq(&slot_host, &key) {
                proof {
                    assert(self@[i as int] == self.slots@[i as int]@);
                }
                return Some(i);
            }
            proof {
                assert(self@[i as int] == self.slots@[i as int]@);
            }
            i = i + 1;
        }
        None
    }

    /// Removes and returns the pooled connection for the URL's origin, if
    /// one is stored; every other origin keeps its connection.
    pub fn take_connection(&mut self, http_url: &HttpUrl) -> (r: Option<Connection<T>>)
        requires
            old(self).wf(),
        ensures
            final(self).wf(),
            r == old(self).spec_lookup(http_url.host@, http_url.port, http_url.tls),
            forall|h: Seq<char>, p: u16, t: bool|
                #[trigger] final(self).spec_lookup(h, p, t) == if h == http_url.host@ && p
                    == http_url.port && t == http_url.tls {
                    None::<Connection<T>>
                } else {
                    old(self).spec_lookup(h, p, t)
                },
    {
        proof {
            lemma_pool_index_of(self@, http_url.host@, http_url.port, http_url.tls);
        }
        let i = match self.find_slot(http_url) {
            None => {
                proof {
                    assert forall|h: Seq<char>, p: u16, t: bool|
                        #[trigger] final(self).spec_lookup(h, p, t) == (if h == http_url.host@ && p
                            == http_url.port && t == http_url.tls {
                            None::<Connection<T>>
                        } else {
                            old(self).spec_lookup(h, p, t)
                        }) by {}
                }
                return None;
            },
            Some(i) => i,
        };
        let slot = self.slots.remove(i);
        proof {
            let key_h = http_url.host@;
            let key_p = http_url.port;
            let key_t = http_url.tls;
            let io = i as int;
            assert(self@ =~= old(self)@.remove(io));
            assert forall|p: int, q: int| 0 <= p < q < self@.len() implies !((
            #[trigger] self@[p]).host == (#[trigger] self@[q]).host && self@[p].port
                == self@[q].port && self@[p].tls == self@[q].tls) by {
                let po = if p < io {
                    p
                } else {
                    p + 1
                };
                let qo = if q < io {
                    q
                } else {
                    q + 1
                };
                assert(self@[p] == old(self)@[po]);
                assert(self@[q] == old(self)@[qo]);
            }
            assert forall|h: Seq<char>, p: u16, t: bool|
                #[trigger] final(self).spec_lookup(h, p, t) == (if h == key_h && p == key_p && t
                    == key_t {
                    None::<Connection<T>>
                } else {
                    old(self).spec_lookup(h, p, t)
                }) by {
                lemma_pool_index_of(self@, h, p, t);
                lemma_pool_index_of(old(self)@, h, p, t);
                let m = pool_index_of(self@, h, p, t);
                let mo = pool_index_of(old(self)@, h, p, t);
                assert forall|x: int| 0 <= x < self@.len() implies self@[x] == old(self)@[
                    if x < io {
                        x
                    } else {
                        x + 1
                    }
                ] by {}
                if h == key_h && p == key_p && t == key_t {
                    if m >= 0 {
                        let xo = if m < io {
                            m
                        } else {
                            m + 1
                        };
                        assert(old(self)@[xo].host == h && old(self)@[xo].port == p && old(
                            self,
                        )@[xo].tls == t);
                        assert(old(self)@[io].host == h && old(self)@[io].port == p && old(
                            self,
                        )@[io].tls == t);
                        assert(xo != io);
                        assert(false);
                    }
                } else {
                    if mo >= 0 {
                        let xn = if mo < io {
                            mo
                        } else {
                            mo - 1
                        };
                        assert(mo != io);
                        assert(self@[xn] == old(self)@[mo]);
                        assert(m >= 0);
                        let back = if m < io {
                            m
                        } else {
                            m + 1
                        };
                        assert(self@[m] == old(self)@[back]);
                        assert(mo <= back);
                        assert(m <= xn);
                        assert(self@[m].conn == old(self)@[mo].conn);
                    } else {
                        if m >= 0 {
                            let back = if m < io {
                                m
                            } else {
                                m + 1
                            };
                            assert(self@[m] == old(self)@[back]);
                            assert(false);
                        }
                    }
                }
            }
        }
        Some(slot.conn)
    }

    /// Stores a connection for the URL's origin, replacing any previous
    /// one; every other origin keeps its connection.
    pub fn set_connection(&mut self, http_url: &HttpUrl, conn: Connection<T>)
        requires
            old(self).wf(),
        ensures
            final(self).wf(),
            forall|h: Seq<char>, p: u16, t: bool|
                #[trigger] final(self).spec_lookup(h, p, t) == if h == http_url.host@ && p
                    == http_url.port && t == http_url.tls {
                    Some(conn)
                } else {
                    old(self).spec_lookup(h, p, t)
                },
    {
        proof {
            lemma_pool_index_of(self@, http_url.host@, http_url.port, http_url.tls);
        }
        let found = self.find_slot(http_url);
        let slot = PoolSlot {
            host: http_url.host.clone(),
            port: http_url.port,
            tls: http_url.tls,
            conn,
        };
        let ghost e = PoolSlotView {
            host: http_url.host@,
            port: http_url.port,
            tls: http_url.tls,
            conn: slot.conn,
        };
        match found {
            Some(i) => {
                self.slots.set(i, slot);
                proof {
                    assert(self@ =~= old(self)@.update(i as int, e));
                }
            },
            None => {
                self.slots.push(slot);
                proof {
                    assert(self@ =~= old(self)@.push(e));
                }
            },
        }
        proof {
            let key_h = http_url.host@;
            let key_p = http_url.port;
            let key_t = http_url.tls;
            let i = pool_index_of(old(self)@, key_h, key_p, key_t);
            assert forall|p: int, q: int| 0 <= p < q < self@.len() implies !((
            #[trigger] self@[p]).host == (#[trigger] self@[q]).host && self@[p].port
                == self@[q].port && self@[p].tls == self@[q].tls) by {
                if i >= 0 {
                    assert(old(self)@[p].host == (if p == i {
                        old(self)@[p].host
                    } else {
                        self@[p].host
                    }));
                } else {
                    if q < old(self)@.len() {
                        assert(self@[p] == old(self)@[p]);
                        assert(self@[q] == old(self)@[q]);
                    } else {
                        assert(self@[p] == old(self)@[p]);
                    }
                }
            }
            assert forall|h: Seq<char>, p: u16, t: bool|
                #[trigger] final(self).spec_lookup(h, p, t) == (if h == key_h && p == key_p && t
                    == key_t {
                    Some(e.conn)
                } else {
                    old(self).spec_lookup(h, p, t)
                }) by {
                lemma_pool_index_of(self@, h, p, t);
                lemma_pool_index_of(old(self)@, h, p, t);
                let m = pool_index_of(self@, h, p, t);
                let mo = pool_index_of(old(self)@, h, p, t);
                if h == key_h && p == key_p && t == key_t {
                    if i >= 0 {
                        assert(self@[i].host == h && self@[i].port == p && self@[i].tls == t);
                        assert(m >= 0);
                        assert(m == i);
                    } else {
                        let last = self@.len() - 1;
                        assert(self@[last].host == h && self@[last].port == p && self@[last].tls
                            == t);
                        assert(m >= 0);
                        assert(m == last);
                    }
                } else {
                    if m >= 0 {
                        assert(self@[m] == old(self)@[m]);
                        assert(mo >= 0);
                        assert(mo <= m);
                        assert(old(self)@[mo] == self@[mo]);
                        assert(m <= mo);
                    } else {
                        if mo >= 0 {
                            assert(self@[mo] == old(self)@[mo]);
                            assert(m >= 0);
                        }
                    }
                }
            }
        }
    }
}

impl<T: ReadWrite> Default for ConnectionPool<T> {
    /// An empty pool.
    fn default() -> (r: ConnectionPool<T>)
        ensures
            r@ == Seq::<PoolSlotView<T>>::empty(),
            r.wf(),
    {
        ConnectionPool::new()
    }
}

/// Connection reuse law: when a pool holds a connection for an origin, a
/// take for that origin yields that very connection — the pool neither
/// swaps nor re-creates transports. Together with `set_connection`'s
/// contract, storing a connection and taking it back for the same origin
/// is the identity on the connection.
pub proof fn lemma_pool_reuse<T: ReadWrite>(pool: &ConnectionPool<T>, http_url: &HttpUrl)
    requires
        pool.spec_lookup(http_url.host@, http_url.port, http_url.tls) is Some,
    ensures
        ({
            let i = pool_index_of(pool@, http_url.host@, http_url.port, http_url.tls);
            0 <= i < pool@.len() && pool.spec_lookup(http_url.host@, http_url.port, http_url.tls)
                == Some(pool@[i].conn)
        }),
{
    lemma_pool_index_of(pool@, http_url.host@, http_url.port, http_url.tls);
}

} // verus!
