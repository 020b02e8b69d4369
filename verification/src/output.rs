use crate::text::{dec_str, strs_view, u64_to_dec};
use vstd::prelude::*;

verus! {

/// Allocates one output shard per dispatched chunk, with a strictly
/// increasing shard index.
pub struct OutputManager {
    pub path_prefix: String,
    pub file_counter: i32,
}

/// The file name of shard `i` under `prefix`: `<prefix>_<i>.json`.
pub open spec fn shard_name(prefix: Seq<char>, i: int) -> Seq<char> {
    prefix + seq!['_'] + dec_str(i as nat) + seq!['.', 'j', 's', 'o', 'n']
}

impl OutputManager {
    /// The shard index never goes backwards below zero.
    pub open spec fn wf(self) -> bool {
        self.file_counter >= 0
    }

    pub fn new(path_prefix: &str) -> (m: Self)
        ensures
            m.wf(),
            m.path_prefix@ == path_prefix@,
            m.file_counter == 0,
    {
        OutputManager { path_prefix: String::from_str(path_prefix), file_counter: 0 }
    }

    /// Hands out the next shard, named `<prefix>_<index>.json`.
    pub fn create_output_json(&mut self) -> (shard: OutputJson)
        requires
            old(self).wf(),
            old(self).file_counter < i32::MAX,
        ensures
            final(self).wf(),
            final(self).path_prefix == old(self).path_prefix,
            final(self).file_counter == old(self).file_counter + 1,
            shard.file_name@ == shard_name(
                old(self).path_prefix@,
                old(self).file_counter as int,
            ),
            shard.buffer@ == Seq::<String>::empty(),
    {
        let mut file_path = self.path_prefix.clone();
        file_path.append("_");
        let index = u64_to_dec(self.file_counter as u64);
        file_path.append(index.as_str());
        file_path.append(".json");
        self.file_counter = self.file_counter + 1;
        proof {
            reveal_strlit("_");
            reveal_strlit(".json");
            assert(file_path@ =~= shard_name(
                old(self).path_prefix@,
                old(self).file_counter as int,
            ));
        }
        OutputJson::new(file_path.as_str())
    }
}

/// One output shard: a file name and the ordered lines not yet written.
pub struct OutputJson {
    pub file_name: String,
    pub buffer: Vec<String>,
}

/// The text written for a buffer of lines: each line followed by a newline.
pub open spec fn rendered(lines: Seq<Seq<char>>) -> Seq<char>
    decreases lines.len(),
{
    if lines.len() == 0 {
        Seq::empty()
    } else {
        rendered(lines.drop_last()) + lines.last() + seq!['\n']
    }
}

impl OutputJson {
    pub fn new(file_path: &str) -> (s: Self)
        ensures
            s.file_name@ == file_path@,
            s.buffer@ == Seq::<String>::empty(),
    {
        OutputJson { file_name: String::from_str(file_path), buffer: Vec::new() }
    }

    /// Appends one serialized record to the shard's buffer.
    pub fn output(&mut self, line: String)
        ensures
            final(self).file_name == old(self).file_name,
            final(self).buffer@ == old(self).buffer@.push(line),
    {
        self.buffer.push(line);
    }

    /// Drains the buffer and returns the text to be written to the shard's
    /// file in one buffered write: every line, each ended by a newline.
    pub fn flush(&mut self) -> (out: String)
        ensures
            final(self).file_name == old(self).file_name,
            final(self).buffer@ == Seq::<String>::empty(),
            out@ == rendered(strs_view(old(self).buffer@)),
    {
        let mut out = String::new();
        let n = self.buffer.len();
        let mut i: usize = 0;
        while i < n
            invariant
                n == self.buffer@.len(),
                i <= n,
                self.buffer == old(self).buffer,
                self.file_name == old(self).file_name,
                out@ == rendered(strs_view(self.buffer@.take(i as int))),
            decreases n - i,
        {
            out.append(self.buffer[i].as_str());
            out.append("\n");
            i += 1;
            proof {
                reveal_strlit("\n");
                let pre = strs_view(self.buffer@.take(i as int));
                assert(pre.drop_last() =~= strs_view(self.buffer@.take(i - 1)));
                assert(pre.last() == self.buffer@[i - 1]@);
                assert("\n"@ =~= seq!['\n']);
                assert(out@ =~= rendered(pre));
            }
        }
        self.buffer = Vec::new();
        proof {
            assert(strs_view(old(self).buffer@.take(n as int)) =~= strs_view(old(self).buffer@));
        }
        out
    }
}

} // verus!
