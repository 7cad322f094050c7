//! Non-owning multichannel audio views.
//!
//! A view borrows caller-owned channel buffers of equal length and exposes a
//! window `[start, end)` of their frames. Slicing narrows the window without
//! copying or allocating; a mutable view hands out exclusive access only.
use vstd::prelude::*;

verus! {

/// The frames `[start, end)` of every channel.
pub open spec fn frames_of<T>(chans: Seq<Seq<T>>, start: int, end: int) -> Seq<Seq<T>> {
    Seq::new(chans.len(), |i: int| chans[i].subrange(start, end))
}

/// All items of `s` are equal.
pub open spec fn all_equal(s: Seq<usize>) -> bool {
    forall|i: int, j: int| 0 <= i < s.len() && 0 <= j < s.len() ==> s[i] == s[j]
}

/// All channels have the same length.
pub open spec fn same_lengths<T>(chans: Seq<Seq<T>>) -> bool {
    forall|i: int, j: int|
        0 <= i < chans.len() && 0 <= j < chans.len() ==> #[trigger] chans[i].len()
            == #[trigger] chans[j].len()
}

/// The common length of the channels, zero where there are none.
pub open spec fn common_len<T>(chans: Seq<Seq<T>>) -> nat {
    if chans.len() == 0 {
        0
    } else {
        chans[0].len()
    }
}

/// Whether every item of `items` equals every other.
pub fn all_same(items: &[usize]) -> (r: bool)
    ensures
        r == all_equal(items@),
{
    let mut i: usize = 1;
    while i < items.len()
        invariant
            1 <= i,
            items.len() > 0 ==> i <= items.len(),
            forall|k: int| 0 <= k < i && k < items@.len() ==> #[trigger] items@[k] == items@[0],
        decreases items.len() - i,
    {
        if items[i] != items[0] {
            return false;
        }
        i = i + 1;
    }
    true
}

/// The contents of borrowed mutable channels.
pub open spec fn contents_mut<'a, T>(buf: Seq<&'a mut [T]>) -> Seq<Seq<T>> {
    Seq::new(buf.len(), |i: int| buf[i]@)
}

/// The contents of borrowed channels.
pub open spec fn contents<'a, T>(buf: Seq<&'a [T]>) -> Seq<Seq<T>> {
    Seq::new(buf.len(), |i: int| buf[i]@)
}

/// A mutable view of frames `[start, end)` of borrowed channels.
pub struct AudioBufferMut<'c, 'a, T> {
    buf: &'c mut [&'a mut [T]],
    start: usize,
    end: usize,
}

impl<'c, 'a, T> AudioBufferMut<'c, 'a, T> {
    /// The window does not end before it starts.
    pub closed spec fn ordered(&self) -> bool {
        self.start <= self.end
    }

    /// The window lies inside every channel.
    pub closed spec fn wf(&self) -> bool {
        &&& self.ordered()
        &&& forall|i: int| 0 <= i < self.buf@.len() ==> self.end <= #[trigger] self.buf@[i]@.len()
    }

    /// Every borrowed channel, whole.
    pub closed spec fn storage(&self) -> Seq<Seq<T>> {
        contents_mut(self.buf@)
    }

    /// Number of frames in the view.
    pub closed spec fn frames(&self) -> nat {
        (self.end - self.start) as nat
    }

    /// The samples in view, channel by channel.
    pub closed spec fn view(&self) -> Seq<Seq<T>> {
        frames_of(self.storage(), self.start as int, self.end as int)
    }

    /// A view of all frames of `buf`, whose channels must have equal length.
    pub fn new(buf: &'c mut [&'a mut [T]]) -> (r: Self)
        requires
            same_lengths(contents_mut(old(buf)@)),
        ensures
            r.wf(),
            r.ordered(),
            r.view() == contents_mut(old(buf)@),
            r.frames() == common_len(contents_mut(old(buf)@)),
    {
        let end: usize = if buf.len() == 0 { 0 } else { buf[0].len() };
        let ghost chans = contents_mut(buf@);
        assert forall|i: int| 0 <= i < buf@.len() implies #[trigger] buf@[i]@.len() == end by {
            assert(chans[i].len() == chans[0].len());
        }
        let r = AudioBufferMut { buf, start: 0, end };
        assert(r.view() =~= chans) by {
            assert forall|i: int| 0 <= i < r.storage().len() implies r.view()[i] =~= r.storage()[i] by {
                assert(r.storage()[i].len() == end);
            }
        }
        r
    }

    /// Number of frames.
    pub fn len(&self) -> (r: usize)
        requires
            self.ordered(),
        ensures
            r == self.frames(),
    {
        self.end - self.start
    }

    pub fn is_empty(&self) -> (r: bool)
        requires
            self.ordered(),
        ensures
            r == (self.frames() == 0),
    {
        self.end == self.start
    }

    pub fn num_channels(&self) -> (r: usize)
        ensures
            r == self.view().len(),
    {
        self.buf.len()
    }

    /// The sample at `frame` of channel `ch`.
    pub fn get(&self, ch: usize, frame: usize) -> (r: &T)
        requires
            self.wf(),
            ch < self.view().len(),
            frame < self.frames(),
        ensures
            *r == self.view()[ch as int][frame as int],
    {
        &self.buf[ch][self.start + frame]
    }

    /// The frames in view of channel `ch`.
    pub fn channel(&self, ch: usize) -> (r: &[T])
        requires
            self.wf(),
            ch < self.view().len(),
        ensures
            r@ == self.view()[ch as int],
    {
        let c: &[T] = &*self.buf[ch];
        vstd::slice::slice_subrange(c, self.start, self.end)
    }

    /// The frames in view of channel `ch`, exclusively; what is written
    /// through it lands in this view.
    pub fn channel_mut(&mut self, ch: usize) -> (r: &mut [T])
        requires
            old(self).wf(),
            ch < old(self).view().len(),
        ensures
            r@ == old(self).view()[ch as int],
            final(self).frames() == old(self).frames(),
            final(r)@.len() == r@.len() ==> final(self).wf() && final(self).view() == old(self).view().update(
                ch as int,
                final(r)@,
            ),
    {
        let start = self.start;
        let end = self.end;
        let ghost self_final = *final(self);
        let c: &mut [T] = &mut *self.buf[ch];
        let ghost c_final = final(c)@;
        let (upto, after) = c.split_at_mut(end);
        let (before, mid) = upto.split_at_mut(start);
        assert(before@ == final(before)@);
        assert(after@ == final(after)@);
        assert(c_final == final(before)@ + final(mid)@ + final(after)@);
        assert(final(mid)@.len() == mid@.len() ==> c_final.subrange(start as int, end as int) =~= final(mid)@);
        assert(self_final.buf@[ch as int]@ == c_final);
        mid
    }

    /// Overwrites the sample at `frame` of channel `ch`.
    pub fn set(&mut self, ch: usize, frame: usize, v: T)
        requires
            old(self).wf(),
            ch < old(self).view().len(),
            frame < old(self).frames(),
        ensures
            final(self).wf(),
            final(self).frames() == old(self).frames(),
            final(self).view() == old(self).view().update(
                ch as int,
                old(self).view()[ch as int].update(frame as int, v),
            ),
    {
        let i = self.start + frame;
        self.buf[ch][i] = v;
        let ghost s = self.start as int;
        let ghost e = self.end as int;
        assert(self.storage()[ch as int].subrange(s, e) =~= old(self).storage()[
            ch as int
        ].subrange(s, e).update(frame as int, v));
        assert(self.view() =~= old(self).view().update(
            ch as int,
            old(self).view()[ch as int].update(frame as int, v),
        ));
    }

    /// An exclusive view of frames `[start, end)` of this view, over the same
    /// storage. This view keeps its frames and channels; what is written
    /// through the new view lands in them.
    pub fn slice<'d>(&'d mut self, start: usize, end: usize) -> (r: AudioBufferMut<'d, 'a, T>)
        requires
            old(self).ordered(),
            start <= end <= old(self).frames(),
        ensures
            r.ordered(),
            r.frames() == end - start,
            old(self).wf() ==> r.wf() && r.view() == frames_of(old(self).view(), start as int, end as int),
            final(self).ordered(),
            final(self).frames() == old(self).frames(),
    {
        let r = AudioBufferMut {
            buf: &mut *self.buf,
            start: self.start + start,
            end: self.start + end,
        };
        assert(old(self).wf() ==> r.view() =~= frames_of(old(self).view(), start as int, end as int)) by {
            if old(self).wf() {
            assert forall|i: int| 0 <= i < r.view().len() implies r.view()[i] =~= frames_of(
                old(self).view(),
                start as int,
                end as int,
            )[i] by {}
            }
        }
        r
    }

    /// The first channel, exclusively, and a view of the others, or `None`
    /// when there is no channel.
    pub fn split_first_mut<'d>(&'d mut self) -> (r: Option<(&'d mut [T], AudioBufferMut<'d, 'a, T>)>)
        requires
            old(self).wf(),
        ensures
            old(self).view().len() == 0 <==> r is None,
            r matches Some((first, rest)) ==> {
                &&& first@ == old(self).view()[0]
                &&& rest.wf()
                &&& rest.frames() == old(self).frames()
                &&& rest.view() == old(self).view().drop_first()
            },
    {
        if self.buf.len() == 0 {
            return None;
        }
        let start = self.start;
        let end = self.end;
        let (head, tail) = self.buf.split_at_mut(1);
        let chan: &mut [T] = &mut *head[0];
        let (upto, _) = chan.split_at_mut(end);
        let (_, first) = upto.split_at_mut(start);
        let rest = AudioBufferMut { buf: tail, start, end };
        assert(first@ =~= old(self).view()[0]);
        assert(rest.view() =~= old(self).view().drop_first()) by {
            assert forall|i: int| 0 <= i < rest.view().len() implies rest.view()[i] =~= old(self).view().drop_first()[i] by {
                assert(rest.buf@[i] == old(self).buf@[i + 1]);
            }
        }
        Some((first, rest))
    }
}

/// A read-only view of frames `[start, end)` of borrowed channels.
pub struct AudioBuffer<'c, 'a, T> {
    buf: &'c [&'a [T]],
    start: usize,
    end: usize,
}

impl<'c, 'a, T> AudioBuffer<'c, 'a, T> {
    /// Every borrowed channel, whole.
    pub closed spec fn storage(&self) -> Seq<Seq<T>> {
        contents(self.buf@)
    }

    pub closed spec fn wf(&self) -> bool {
        &&& self.start <= self.end
        &&& forall|i: int| 0 <= i < self.buf@.len() ==> self.end <= #[trigger] self.buf@[i]@.len()
    }

    /// Number of frames in the view.
    pub closed spec fn frames(&self) -> nat {
        (self.end - self.start) as nat
    }

    /// The samples in view, channel by channel.
    pub closed spec fn view(&self) -> Seq<Seq<T>> {
        frames_of(self.storage(), self.start as int, self.end as int)
    }

    /// A view of all frames of `buf`, whose channels must have equal length.
    pub fn new(buf: &'c [&'a [T]]) -> (r: Self)
        requires
            same_lengths(contents(buf@)),
        ensures
            r.wf(),
            r.view() == contents(buf@),
            r.frames() == common_len(contents(buf@)),
    {
        let end: usize = if buf.len() == 0 { 0 } else { buf[0].len() };
        let r = AudioBuffer { buf, start: 0, end };
        assert forall|i: int| 0 <= i < r.buf@.len() implies r.end <= #[trigger] r.buf@[i]@.len() by {
            assert(r.storage()[i].len() == r.storage()[0].len());
        }
        assert(r.view() =~= contents(buf@)) by {
            assert forall|i: int| 0 <= i < r.storage().len() implies r.view()[i] =~= r.storage()[i] by {
                assert(r.storage()[i].len() == r.storage()[0].len());
            }
        }
        r
    }

    /// Number of frames.
    pub fn len(&self) -> (r: usize)
        requires
            self.wf(),
        ensures
            r == self.frames(),
    {
        self.end - self.start
    }

    pub fn is_empty(&self) -> (r: bool)
        requires
            self.wf(),
        ensures
            r == (self.frames() == 0),
    {
        self.end == self.start
    }

    pub fn num_channels(&self) -> (r: usize)
        ensures
            r == self.view().len(),
    {
        self.buf.len()
    }

    /// The frames in view of channel `ch`, without copying.
    pub fn channel(&self, ch: usize) -> (r: &'a [T])
        requires
            self.wf(),
            ch < self.view().len(),
        ensures
            r@ == self.view()[ch as int],
    {
        vstd::slice::slice_subrange(self.buf[ch], self.start, self.end)
    }

    /// A view of frames `[start, end)` of this view, over the same storage.
    pub fn slice(&self, start: usize, end: usize) -> (r: AudioBuffer<'c, 'a, T>)
        requires
            self.wf(),
            start <= end <= self.frames(),
        ensures
            r.wf(),
            r.frames() == end - start,
            r.view() == frames_of(self.view(), start as int, end as int),
    {
        let r = AudioBuffer { buf: self.buf, start: self.start + start, end: self.start + end };
        assert(r.view() =~= frames_of(self.view(), start as int, end as int)) by {
            assert forall|i: int| 0 <= i < r.view().len() implies r.view()[i] =~= frames_of(
                self.view(),
                start as int,
                end as int,
            )[i] by {}
        }
        r
    }

    /// The first channel and a view of the others, or `None` when there is no channel.
    pub fn split_first(&self) -> (r: Option<(&'a [T], AudioBuffer<'c, 'a, T>)>)
        requires
            self.wf(),
        ensures
            self.view().len() == 0 <==> r is None,
            r matches Some((first, rest)) ==> {
                &&& first@ == self.view()[0]
                &&& rest.wf()
                &&& rest.frames() == self.frames()
                &&& rest.view() == self.view().drop_first()
            },
    {
        if self.buf.len() == 0 {
            return None;
        }
        let first = self.channel(0);
        let (_, tail) = self.buf.split_at(1);
        let rest = AudioBuffer { buf: tail, start: self.start, end: self.end };
        assert(rest.view() =~= self.view().drop_first()) by {
            assert forall|i: int| 0 <= i < rest.view().len() implies rest.view()[i] =~= self.view().drop_first()[i] by {
                assert(tail@[i] == self.buf@[i + 1]);
            }
        }
        Some((first, rest))
    }
}

} // verus!
