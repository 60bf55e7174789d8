//! Interleaved playback buffering: queued samples are handed to an output
//! callback frame by frame, padding with silence when the queue runs dry.
use std::collections::VecDeque;
use vstd::prelude::*;

verus! {

broadcast use vstd::std_specs::vecdeque::group_vec_dequeue_axioms;

/// A queue of interleaved samples for `channels` channels.
pub struct AudioBuffer<T> {
    buffer: VecDeque<T>,
    channels: usize,
}

impl<T> View for AudioBuffer<T> {
    type V = (Seq<T>, nat);

    closed spec fn view(&self) -> (Seq<T>, nat) {
        (self.buffer@, self.channels as nat)
    }
}

/// What an output callback receives: whole frames taken from the queue,
/// then silence for the frames the queue cannot fill; samples after the last
/// whole frame of the output stay as they were.
pub open spec fn spec_filled<T>(queued: Seq<T>, channels: nat, out: Seq<T>, silence: T) -> Seq<T>
    recommends
        channels > 0,
{
    let frames = out.len() / channels;
    let copied = (if frames <= queued.len() / channels {
        frames
    } else {
        queued.len() / channels
    }) * channels;
    Seq::new(
        out.len(),
        |i: int|
            if i < copied {
                queued[i]
            } else if i < frames * channels {
                silence
            } else {
                out[i]
            },
    )
}

/// How many queued samples a callback consumes.
pub open spec fn spec_consumed<T>(queued: Seq<T>, channels: nat, out_len: nat) -> int
    recommends
        channels > 0,
{
    let frames = out_len / channels;
    ((if frames <= queued.len() / channels {
        frames
    } else {
        queued.len() / channels
    }) * channels) as int
}

impl<T: Copy> AudioBuffer<T> {
    pub fn new(channels: usize) -> (r: AudioBuffer<T>)
        ensures
            r@ == (Seq::<T>::empty(), channels as nat),
    {
        AudioBuffer { buffer: VecDeque::new(), channels }
    }

    /// Queues samples after those already waiting.
    pub fn write_data(&mut self, data: Vec<T>)
        ensures
            final(self)@ == (old(self)@.0 + data@, old(self)@.1),
    {
        let mut i: usize = 0;
        let ghost start = self.buffer@;
        while i < data.len()
            invariant
                i <= data@.len(),
                self.buffer@ == start + data@.take(i as int),
                self.channels == old(self).channels,
                start == old(self).buffer@,
            decreases data@.len() - i,
        {
            self.buffer.push_back(data[i]);
            i = i + 1;
            assert(data@.take(i as int) == data@.take(i - 1).push(data@[i - 1]));
        }
        assert(data@.take(data@.len() as int) == data@);
    }

    /// Fills the whole frames of `output`, first from the queue, then with
    /// `silence`.
    pub fn fill_output(&mut self, output: &mut [T], silence: T)
        requires
            old(self)@.1 > 0,
        ensures
            final(output)@ == spec_filled(old(self)@.0, old(self)@.1, old(output)@, silence),
            final(self)@.1 == old(self)@.1,
            final(self)@.0 == old(self)@.0.subrange(
                spec_consumed(old(self)@.0, old(self)@.1, old(output)@.len()),
                old(self)@.0.len() as int,
            ),
    {
        let ch = self.channels;
        let output_frames = output.len() / ch;
        let available_frames = self.buffer.len() / ch;
        let frames_to_copy = if output_frames <= available_frames {
            output_frames
        } else {
            available_frames
        };
        let ghost queued = self.buffer@;
        let ghost out0 = output@;
        proof {
            let ol = output@.len() as int;
            let ql = queued.len() as int;
            let c = ch as int;
            assert(frames_to_copy * c <= output_frames * c) by (nonlinear_arith)
                requires
                    frames_to_copy <= output_frames,
                    c > 0,
            ;
            assert(frames_to_copy * c <= available_frames * c) by (nonlinear_arith)
                requires
                    frames_to_copy <= available_frames,
                    c > 0,
            ;
            assert(output_frames * c <= ol) by (nonlinear_arith)
                requires
                    output_frames == ol / c,
                    c > 0,
                    ol >= 0,
            ;
            assert(available_frames * c <= ql) by (nonlinear_arith)
                requires
                    available_frames == ql / c,
                    c > 0,
                    ql >= 0,
            ;
        }
        let copied = frames_to_copy * ch;
        assert(copied <= output@.len() && copied <= queued.len());
        let total = output_frames * ch;
        assert(total <= output@.len());
        let mut i: usize = 0;
        while i < copied
            invariant
                copied <= total <= output@.len() == out0.len(),
                copied <= queued.len(),
                i <= copied,
                self.buffer@ == queued.subrange(i as int, queued.len() as int),
                self.channels == ch,
                forall|j: int| 0 <= j < i ==> output@[j] == queued[j],
                forall|j: int| i <= j < output@.len() ==> output@[j] == out0[j],
            decreases copied - i,
        {
            let v = self.buffer.pop_front();
            let x = match v {
                Some(x) => x,
                None => silence,
            };
            output[i] = x;
            i = i + 1;
        }
        while i < total
            invariant
                copied <= i <= total <= output@.len() == out0.len(),
                forall|j: int| 0 <= j < copied ==> output@[j] == queued[j],
                forall|j: int| copied <= j < i ==> output@[j] == silence,
                forall|j: int| i <= j < output@.len() ==> output@[j] == out0[j],
            decreases total - i,
        {
            output[i] = silence;
            i = i + 1;
        }
        assert(output@ =~= spec_filled(queued, ch as nat, out0, silence));
    }
}

/// Copies a mono signal into an interleaved output: frame `f` carries
/// `data[f]` on every channel, for as many frames as both hold. When the
/// output is longer than `data`, the frames from `data.len() / channels` on
/// are silence; other samples stay as they were.
pub open spec fn spec_write_frames<T>(out: Seq<T>, channels: nat, data: Seq<T>, silence: T) -> Seq<T>
    recommends
        channels > 0,
{
    let c = channels as int;
    let min_len: int = if data.len() <= out.len() { data.len() as int } else { out.len() as int };
    let filled = min_len / c;
    Seq::new(
        out.len(),
        |i: int|
            if i / c < filled {
                data[i / c]
            } else if out.len() > data.len() && i / c >= data.len() as int / c {
                silence
            } else {
                out[i]
            },
    )
}

pub fn write_data<T: Copy>(output: &mut [T], channels: usize, data: Vec<T>, silence: T)
    requires
        channels > 0,
    ensures
        final(output)@ == spec_write_frames(old(output)@, channels as nat, data@, silence),
{
    let ghost out0 = output@;
    let n = output.len();
    let min_len = if data.len() <= n { data.len() } else { n };
    let filled = min_len / channels;
    let zero_from = data.len() / channels;
    let pad = n > data.len();
    let mut i: usize = 0;
    while i < n
        invariant
            n == output@.len() == out0.len(),
            channels > 0,
            filled == min_len / channels,
            min_len <= data@.len(),
            zero_from as int == data@.len() as int / channels as int,
            pad == (n > data@.len()),
            min_len as int == (if data@.len() <= n { data@.len() as int } else { n as int }),
            i <= n,
            forall|j: int|
                0 <= j < i ==> output@[j] == spec_write_frames(out0, channels as nat, data@, silence)[j],
            forall|j: int| i <= j < n ==> output@[j] == out0[j],
        decreases n - i,
    {
        let f = i / channels;
        proof {
            vstd::arithmetic::div_mod::lemma_div_is_ordered(min_len as int, data@.len() as int, channels as int);
            vstd::arithmetic::div_mod::lemma_div_is_ordered_by_denominator(data@.len() as int, 1, channels as int);
        }
        if f < filled {
            output[i] = data[f];
        } else if pad && f >= zero_from {
            output[i] = silence;
        }
        i = i + 1;
    }
    assert(output@ =~= spec_write_frames(out0, channels as nat, data@, silence));
}

} // verus!
