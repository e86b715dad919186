//! Output sinks.
//!
//! A sink is a writable byte destination. The library models a sink as the
//! sequence of bytes written to it so far; the program around the library
//! mirrors every write onto the real destination (standard output or a file)
//! and flushes it, so the recorded sequence is exactly the destination's
//! observable content.

use vstd::prelude::*;

use crate::cli;

verus! {

/// Output stream: records the bytes written to one sink, in order.
pub struct Stream {
    /// Every byte written so far, oldest first.
    pub written: Vec<u8>,
}

impl View for Stream {
    type V = Seq<u8>;

    open spec fn view(&self) -> Seq<u8> {
        self.written@
    }
}

impl Stream {
    /// Creates a stream with nothing written yet.
    pub fn new() -> (s: Stream)
        ensures
            s@ =~= Seq::<u8>::empty(),
    {
        Stream { written: Vec::new() }
    }

    /// Writes to the output stream: appends `data` to the recorded bytes.
    pub fn write(&mut self, data: &[u8])
        ensures
            final(self)@ == old(self)@ + data@,
    {
        write_stream(self, data);
    }
}

/// Appends `data`, in order, to the stream's record.
pub fn write_stream(stream: &mut Stream, data: &[u8])
    ensures
        final(stream)@ == old(stream)@ + data@,
{
    let n: usize = data.len();
    let mut i: usize = 0;
    while i < n
        invariant
            i <= n,
            n == data@.len(),
            stream@ == old(stream)@ + data@.take(i as int),
        decreases n - i,
    {
        stream.written.push(data[i]);
        i = i + 1;
        proof {
            assert(data@.take(i as int) =~= data@.take(i - 1) + seq![data@[i - 1]]);
        }
    }
    proof {
        assert(stream@ =~= old(stream)@ + data@);
    }
}

/// Opened output: the ports it selects and the stream that receives them.
pub struct Output {
    /// Stimulus ports selected for this output. An empty vector selects all
    /// ports.
    pub ports: Vec<u8>,
    /// Output stream.
    pub output: Stream,
}

impl Output {
    /// Opens all output streams: one empty stream per specification entry,
    /// selecting that entry's ports.
    pub fn open_all(outputs: &Vec<cli::Output>) -> (opened: Vec<Output>)
        ensures
            opened@.len() == outputs@.len(),
            forall|i: int|
                0 <= i < outputs@.len() ==> (#[trigger] opened@[i]).ports@ == outputs@[i].ports@
                    && opened@[i].output@ =~= Seq::<u8>::empty(),
    {
        let mut opened: Vec<Output> = Vec::new();
        let n: usize = outputs.len();
        let mut i: usize = 0;
        while i < n
            invariant
                i <= n,
                n == outputs@.len(),
                opened@.len() == i,
                forall|j: int|
                    0 <= j < i ==> (#[trigger] opened@[j]).ports@ == outputs@[j].ports@
                        && opened@[j].output@ =~= Seq::<u8>::empty(),
            decreases n - i,
        {
            let mut ports: Vec<u8> = Vec::new();
            let m: usize = outputs[i].ports.len();
            let mut k: usize = 0;
            while k < m
                invariant
                    k <= m,
                    i < n,
                    n == outputs@.len(),
                    m == outputs@[i as int].ports@.len(),
                    ports@ == outputs@[i as int].ports@.take(k as int),
                decreases m - k,
            {
                ports.push(outputs[i].ports[k]);
                k = k + 1;
                proof {
                    assert(outputs@[i as int].ports@.take(k as int) =~= outputs@[i as int].ports@.take(
                        k - 1,
                    ) + seq![outputs@[i as int].ports@[k - 1]]);
                }
            }
            proof {
                assert(ports@ =~= outputs@[i as int].ports@);
            }
            opened.push(Output { ports, output: Stream::new() });
            i = i + 1;
        }
        opened
    }
}

} // verus!
