//! Recognising the stub's reply in a byte stream that may carry diagnostic
//! noise around it. A reply is the first of the tokens `OK`, `Fail` and
//! `RX_WAIT` to appear; only the last few bytes need to be kept to find it.

use vstd::prelude::*;
use crate::command::Response;

verus! {

/// The bytes of the token that stands for `r`: `OK`, `Fail` or `RX_WAIT`.
pub open spec fn token(r: Response) -> Seq<u8> {
    match r {
        Response::Okay => seq![0x4fu8, 0x4b],
        Response::Fail => seq![0x46u8, 0x61, 0x69, 0x6c],
        Response::RxWait => seq![0x52u8, 0x58, 0x5f, 0x57, 0x41, 0x49, 0x54],
    }
}

/// `t` occurs somewhere in `s`.
pub open spec fn contains(s: Seq<u8>, t: Seq<u8>) -> bool {
    exists|i: int| 0 <= i && i + t.len() <= s.len() && #[trigger] s.subrange(i, i + t.len()) == t
}

/// `s` ends with `t`.
pub open spec fn ends_with(s: Seq<u8>, t: Seq<u8>) -> bool {
    t.len() <= s.len() && s.subrange(s.len() - t.len(), s.len() as int) == t
}

/// The reply that the bytes `s` hold, tokens tried in the order `OK`, `Fail`,
/// `RX_WAIT`; `None` while none of them occurs.
pub open spec fn classify(s: Seq<u8>) -> Option<Response> {
    if contains(s, token(Response::Okay)) {
        Some(Response::Okay)
    } else if contains(s, token(Response::Fail)) {
        Some(Response::Fail)
    } else if contains(s, token(Response::RxWait)) {
        Some(Response::RxWait)
    } else {
        None
    }
}

/// Number of bytes the scanner keeps: one less than the longest token.
pub open spec fn kept(n: nat) -> int {
    if n < 6 { n as int } else { 6 }
}

proof fn lemma_contains_after_push(s: Seq<u8>, b: u8, t: Seq<u8>)
    requires
        !contains(s, t),
        t.len() >= 1,
    ensures
        contains(s.push(b), t) <==> ends_with(s.push(b), t),
{
    let s2 = s.push(b);
    if contains(s2, t) {
        let i = choose|i: int| 0 <= i && i + t.len() <= s2.len() && #[trigger] s2.subrange(i, i + t.len()) == t;
        if i + t.len() <= s.len() {
            assert(s.subrange(i, i + t.len()) =~= s2.subrange(i, i + t.len()));
        }
    }
    if ends_with(s2, t) {
        let i = s2.len() - t.len();
        assert(s2.subrange(i, i + t.len()) == t);
    }
}

proof fn lemma_contains_grows(s: Seq<u8>, n: int, t: Seq<u8>)
    requires
        0 <= n <= s.len(),
        contains(s.take(n), t),
    ensures
        contains(s, t),
{
    let p = s.take(n);
    let i = choose|i: int| 0 <= i && i + t.len() <= p.len() && #[trigger] p.subrange(i, i + t.len()) == t;
    assert(s.subrange(i, i + t.len()) =~= p.subrange(i, i + t.len()));
}

/// Finds the reply in a stream of bytes fed to it one at a time, keeping only
/// the last six bytes.
pub struct TokenScanner {
    tail: Vec<u8>,
    seen: Ghost<Seq<u8>>,
}

fn token_bytes(r: Response) -> (t: Vec<u8>)
    ensures
        t@ == token(r),
{
    let t = match r {
        Response::Okay => vec![0x4fu8, 0x4b],
        Response::Fail => vec![0x46u8, 0x61, 0x69, 0x6c],
        Response::RxWait => vec![0x52u8, 0x58, 0x5f, 0x57, 0x41, 0x49, 0x54],
    };
    assert(t@ =~= token(r));
    t
}

fn ends_with_token(w: &Vec<u8>, r: Response) -> (b: bool)
    ensures
        b == ends_with(w@, token(r)),
{
    let t = token_bytes(r);
    if t.len() > w.len() {
        return false;
    }
    let off: usize = w.len() - t.len();
    let mut i: usize = 0;
    while i < t.len()
        invariant
            off + t@.len() == w@.len(),
            w@.len() <= usize::MAX,
            i <= t@.len(),
            t@ == token(r),
            forall|j: int| 0 <= j < i ==> w@[off + j] == t@[j],
        decreases t@.len() - i,
    {
        if w[off + i] != t[i] {
            assert(w@.subrange(off as int, w@.len() as int)[i as int] != t@[i as int]);
            return false;
        }
        i = i + 1;
    }
    assert(w@.subrange(off as int, w@.len() as int) =~= t@);
    true
}

impl TokenScanner {
    /// Every byte fed so far.
    pub closed spec fn seen(&self) -> Seq<u8> {
        self.seen@
    }

    /// The kept bytes are the last ones seen.
    pub closed spec fn wf(&self) -> bool {
        let n = self.seen@.len();
        &&& self.tail@.len() == kept(n)
        &&& self.tail@ == self.seen@.subrange(n - kept(n), n as int)
    }

    pub fn new() -> (r: Self)
        ensures
            r.wf(),
            r.seen() == Seq::<u8>::empty(),
    {
        let r = TokenScanner { tail: Vec::new(), seen: Ghost(Seq::empty()) };
        assert(r.tail@ =~= r.seen@.subrange(0, 0));
        r
    }

    /// Feeds one byte; returns the reply once the bytes seen so far hold one.
    pub fn push(&mut self, b: u8) -> (r: Option<Response>)
        requires
            old(self).wf(),
            classify(old(self).seen()) is None,
        ensures
            final(self).wf(),
            final(self).seen() == old(self).seen().push(b),
            r == classify(final(self).seen()),
    {
        let ghost s = self.seen@;
        self.tail.push(b);
        self.seen = Ghost(s.push(b));
        let ghost s2 = s.push(b);
        let ghost w = self.tail@;
        assert(w =~= s2.subrange(s2.len() - w.len(), s2.len() as int));
        proof {
            assert forall|r: Response| ends_with(w, token(r)) <==> ends_with(s2, token(r)) by {
                let t = token(r);
                if t.len() <= w.len() {
                    assert(w.subrange(w.len() - t.len(), w.len() as int) =~= s2.subrange(
                        s2.len() - t.len(),
                        s2.len() as int,
                    ));
                }
            }
            lemma_contains_after_push(s, b, token(Response::Okay));
            lemma_contains_after_push(s, b, token(Response::Fail));
            lemma_contains_after_push(s, b, token(Response::RxWait));
        }
        let found = if ends_with_token(&self.tail, Response::Okay) {
            Some(Response::Okay)
        } else if ends_with_token(&self.tail, Response::Fail) {
            Some(Response::Fail)
        } else if ends_with_token(&self.tail, Response::RxWait) {
            Some(Response::RxWait)
        } else {
            None
        };
        if self.tail.len() > 6 {
            self.tail.remove(0);
        }
        assert(self.tail@ =~= s2.subrange(s2.len() - kept(s2.len()), s2.len() as int));
        found
    }
}

/// The reply in `bytes` and the number of bytes read up to its end, reading
/// one byte at a time and stopping at the first byte that completes a token;
/// `None` when no token occurs.
pub fn classify_stream(bytes: &[u8]) -> (r: Option<(Response, usize)>)
    ensures
        match r {
            Some((resp, n)) => {
                &&& 1 <= n <= bytes@.len()
                &&& classify(bytes@.take(n as int)) == Some(resp)
                &&& classify(bytes@.take(n - 1)) is None
            },
            None => classify(bytes@) is None,
        },
{
    let mut scanner = TokenScanner::new();
    let mut i: usize = 0;
    while i < bytes.len()
        invariant
            i <= bytes@.len(),
            scanner.wf(),
            scanner.seen() == bytes@.take(i as int),
            classify(scanner.seen()) is None,
        decreases bytes@.len() - i,
    {
        let r = scanner.push(bytes[i]);
        assert(bytes@.take(i as int).push(bytes@[i as int]) =~= bytes@.take(i + 1));
        i = i + 1;
        if let Some(resp) = r {
            return Some((resp, i));
        }
    }
    assert(bytes@.take(bytes@.len() as int) =~= bytes@);
    None
}

/// Noise around a token does not hide it: when no token occurs before the
/// last byte of the token of `r`, any stream that continues with that token
/// is classified as `r` exactly at its last byte, whatever follows.
pub proof fn lemma_token_in_noise(noise: Seq<u8>, r: Response, after: Seq<u8>)
    requires
        classify(noise + token(r).drop_last()) is None,
    ensures
        ({
            let s = noise + token(r) + after;
            let n = (noise.len() + token(r).len()) as int;
            &&& classify(s.take(n)) == Some(r)
            &&& classify(s.take(n - 1)) is None
        }),
{
    let t = token(r);
    let s = noise + t + after;
    let n = (noise.len() + t.len()) as int;
    let head = noise + t.drop_last();
    assert(s.take(n - 1) =~= head);
    assert(s.take(n) =~= head.push(t.last()));
    assert(head.push(t.last()) =~= noise + t);
    lemma_contains_after_push(head, t.last(), token(Response::Okay));
    lemma_contains_after_push(head, t.last(), token(Response::Fail));
    lemma_contains_after_push(head, t.last(), token(Response::RxWait));
    let whole = noise + t;
    assert(whole.subrange(whole.len() - t.len(), whole.len() as int) =~= t);
    assert(ends_with(whole, t));
}

} // verus!
