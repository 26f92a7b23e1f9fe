//! Post-processing of the bytes that flow from upstream to the client.
//!
//! A transform sees the *merged offset* of each byte, its place in the file
//! before that was split, so it works alike over one volume and over many.
//!
//! A task's plugins are listed in the order in which the sender applied them; on
//! the way out they are undone in reverse.

pub mod chacha20;

use crate::text::{join2, join3, same_text};
use std::sync::Arc;
use vstd::prelude::*;
use vstd::string::*;

verus! {

/// How a form field is shown.
#[derive(Debug, Clone, Copy, PartialEq, Eq, Structural)]
pub enum FieldKind {
    /// Plain single-line string.
    Text,
    /// Multi-line string.
    TextArea,
    /// Hex-encoded byte string.
    Hex,
    /// Path of a local file.
    Path,
    /// Path of a local directory.
    DirPath,
    /// Unsigned number.
    Number,
    /// Byte-size string like `5M`, `512K` or `1G`.
    Size,
    /// Checkbox.
    Boolean,
    /// Dropdown; the choices are the field's `options`.
    Select,
}

/// One choice in a [`FieldKind::Select`] field.
#[derive(Debug, Clone)]
pub struct SelectOption {
    pub value: String,
    pub label: String,
}

/// One form field: `key` is the object key under which the value is stored.
#[derive(Debug, Clone)]
pub struct ConfigField {
    pub key: String,
    pub label: String,
    pub kind: FieldKind,
    /// Helper text shown beneath the input.
    pub hint: Option<String>,
    pub required: bool,
    /// On a [`FieldKind::Hex`] field: how many random bytes the form can fill in.
    pub generate_random_bytes: Option<u32>,
    pub default_filename: Option<String>,
    /// On a [`FieldKind::Path`] field: `open` or `save`.
    pub path_mode: Option<&'static str>,
    pub options: Option<Vec<SelectOption>>,
}

/// How far a tool that works on files has come.
#[derive(Debug, Clone)]
pub struct ForwardProgress {
    pub bytes_done: u64,
    pub bytes_total: u64,
    /// What is being done.
    pub phase: String,
}

/// Byte-level transform applied to outgoing data.
///
/// It is random-access: what becomes of a byte depends on its value and its place
/// alone, because the same bytes may be sliced differently across requests.
pub trait ByteTransform: Send + Sync {
    /// The transform works on `len` bytes from `merged_offset` on.
    spec fn admits(&self, merged_offset: u64, len: nat) -> bool;

    /// What becomes of `data`, the first byte of which lies at `merged_offset`.
    spec fn transformed(&self, merged_offset: u64, data: Seq<u8>) -> Seq<u8>;

    /// Mutates `data` in place. `merged_offset` is the position of `data[0]` in the
    /// merged file.
    fn transform(&self, merged_offset: u64, data: &mut [u8])
        requires
            self.admits(merged_offset, old(data)@.len()),
        ensures
            final(data)@ == self.transformed(merged_offset, old(data)@),
            final(data)@.len() == old(data)@.len(),
    ;
}

/// A transform that streams share.
pub struct SharedTransform {
    pub inner: Arc<dyn ByteTransform>,
}

/// `data` after the first `n` transforms, the last of them first.
pub open spec fn undone(
    transforms: Seq<SharedTransform>,
    n: int,
    merged_offset: u64,
    data: Seq<u8>,
) -> Seq<u8>
    decreases n,
{
    if n <= 0 {
        data
    } else {
        undone(
            transforms,
            n - 1,
            merged_offset,
            transforms[n - 1].inner.transformed(merged_offset, data),
        )
    }
}

/// Ordered list of transforms applied to outgoing bytes, held in the order in which
/// the sender applied them.
pub struct TransformPipeline {
    pub transforms: Vec<SharedTransform>,
}

impl TransformPipeline {
    pub fn new() -> (out: Self)
        ensures
            out.transforms@.len() == 0,
    {
        TransformPipeline { transforms: Vec::new() }
    }

    pub fn push(&mut self, t: SharedTransform)
        ensures
            final(self).transforms@ == old(self).transforms@.push(t),
    {
        self.transforms.push(t);
    }

    pub fn is_empty(&self) -> (out: bool)
        ensures
            out == (self.transforms@.len() == 0),
    {
        self.transforms.len() == 0
    }

    pub fn len(&self) -> (out: usize)
        ensures
            out == self.transforms@.len(),
    {
        self.transforms.len()
    }

    /// Applies every transform to `data`, the last one first.
    pub fn apply_reverse(&self, merged_offset: u64, data: &mut [u8])
        requires
            forall|i: int|
                0 <= i < self.transforms@.len() ==> (#[trigger] self.transforms@[i]).inner.admits(
                    merged_offset,
                    old(data)@.len(),
                ),
        ensures
            final(data)@ == undone(
                self.transforms@,
                self.transforms@.len() as int,
                merged_offset,
                old(data)@,
            ),
            final(data)@.len() == old(data)@.len(),
    {
        let mut n: usize = self.transforms.len();
        while n > 0
            invariant
                n <= self.transforms@.len(),
                data@.len() == old(data)@.len(),
                forall|i: int|
                    0 <= i < self.transforms@.len() ==> (#[trigger] self.transforms@[i]).inner.admits(
                        merged_offset,
                        old(data)@.len(),
                    ),
                undone(self.transforms@, n as int, merged_offset, data@) == undone(
                    self.transforms@,
                    self.transforms@.len() as int,
                    merged_offset,
                    old(data)@,
                ),
            decreases n,
        {
            n = n - 1;
            assert(self.transforms@[n as int].inner.admits(merged_offset, data@.len()));
            self.transforms[n].inner.transform(merged_offset, data);
        }
    }
}

/// `data` after the first `n` transforms as the sender applies them, the first of
/// them first.
pub open spec fn applied(
    transforms: Seq<SharedTransform>,
    n: int,
    merged_offset: u64,
    data: Seq<u8>,
) -> Seq<u8>
    decreases n,
{
    if n <= 0 {
        data
    } else {
        transforms[n - 1].inner.transformed(
            merged_offset,
            applied(transforms, n - 1, merged_offset, data),
        )
    }
}

/// The transform undoes itself on data of this length, and keeps the length.
pub open spec fn undoes_itself(t: SharedTransform, merged_offset: u64, len: nat) -> bool {
    forall|d: Seq<u8>|
        d.len() == len ==> (#[trigger] t.inner.transformed(merged_offset, d)).len() == len
            && t.inner.transformed(merged_offset, t.inner.transformed(merged_offset, d)) == d
}

/// What a sender's transforms did, the pipeline undoes, however many there are.
pub proof fn law_a_pipeline_undoes_what_was_applied(
    transforms: Seq<SharedTransform>,
    merged_offset: u64,
    data: Seq<u8>,
)
    requires
        forall|i: int|
            0 <= i < transforms.len() ==> undoes_itself(
                #[trigger] transforms[i],
                merged_offset,
                data.len(),
            ),
    ensures
        undone(
            transforms,
            transforms.len() as int,
            merged_offset,
            applied(transforms, transforms.len() as int, merged_offset, data),
        ) == data,
{
    lemma_undone(transforms, transforms.len() as int, merged_offset, data);
}

proof fn lemma_undone(
    transforms: Seq<SharedTransform>,
    n: int,
    merged_offset: u64,
    data: Seq<u8>,
)
    requires
        0 <= n <= transforms.len(),
        forall|i: int|
            0 <= i < transforms.len() ==> undoes_itself(
                #[trigger] transforms[i],
                merged_offset,
                data.len(),
            ),
    ensures
        undone(transforms, n, merged_offset, applied(transforms, n, merged_offset, data)) == data,
        applied(transforms, n, merged_offset, data).len() == data.len(),
    decreases n,
{
    if n > 0 {
        lemma_undone(transforms, n - 1, merged_offset, data);
        let before = applied(transforms, n - 1, merged_offset, data);
        assert(undoes_itself(transforms[n - 1], merged_offset, data.len()));
        assert(transforms[n - 1].inner.transformed(merged_offset, before).len() == data.len());
    }
}

/// One plugin slot inside a task config: which plugin, whether it is switched on,
/// and its configuration as JSON text.
#[derive(Debug, Clone)]
pub struct TaskPluginConfig {
    pub id: String,
    pub enabled: bool,
    pub config: String,
}

/// The plugin, from `i` on, that has this id.
pub open spec fn plugin_from<P>(by_id: Seq<(String, P)>, id: Seq<char>, i: int) -> Option<int>
    decreases by_id.len() - i,
{
    if i >= by_id.len() {
        None
    } else if by_id[i].0@ == id {
        Some(i)
    } else {
        plugin_from(by_id, id, i + 1)
    }
}

/// The slots among the first `n` that take part: switched on, and of a plugin that
/// is there. Each with the plugin's place.
pub open spec fn live_slots<P>(
    by_id: Seq<(String, P)>,
    configs: Seq<TaskPluginConfig>,
    n: int,
) -> Seq<(usize, usize)>
    decreases n,
{
    if n <= 0 {
        seq![]
    } else {
        let front = live_slots(by_id, configs, n - 1);
        match plugin_from(by_id, configs[n - 1].id@, 0) {
            Some(k) if configs[n - 1].enabled => front.push(((n - 1) as usize, k as usize)),
            _ => front,
        }
    }
}

/// The available plugins, in the order in which they were registered.
pub struct PluginRegistry<P> {
    pub by_id: Vec<(String, P)>,
}

impl<P> PluginRegistry<P> {
    pub fn new() -> (out: Self)
        ensures
            out.by_id@.len() == 0,
    {
        PluginRegistry { by_id: Vec::new() }
    }

    fn position(&self, id: &str) -> (out: Option<usize>)
        ensures
            match out {
                Some(i) => plugin_from(self.by_id@, id@, 0) == Some(i as int) && i
                    < self.by_id@.len() && self.by_id@[i as int].0@ == id@,
                None => plugin_from(self.by_id@, id@, 0) is None,
            },
    {
        let mut i: usize = 0;
        while i < self.by_id.len()
            invariant
                i <= self.by_id@.len(),
                plugin_from(self.by_id@, id@, 0) == plugin_from(self.by_id@, id@, i as int),
            decreases self.by_id.len() - i,
        {
            if same_text(self.by_id[i].0.as_str(), id) {
                return Some(i);
            }
            i = i + 1;
        }
        None
    }

    /// Adds a plugin. One with an id that is already there takes that one's place.
    pub fn register(&mut self, id: String, plugin: P)
        ensures
            final(self).by_id@ == match plugin_from(old(self).by_id@, id@, 0) {
                Some(i) => old(self).by_id@.update(i, (id, plugin)),
                None => old(self).by_id@.push((id, plugin)),
            },
    {
        match self.position(id.as_str()) {
            Some(i) => {
                self.by_id.set(i, (id, plugin));
            },
            None => {
                self.by_id.push((id, plugin));
            },
        }
    }

    pub fn get(&self, id: &str) -> (out: Option<&P>)
        ensures
            match plugin_from(self.by_id@, id@, 0) {
                Some(i) => out == Some(&self.by_id@[i].1),
                None => out is None,
            },
    {
        match self.position(id) {
            Some(i) => Some(&self.by_id[i].1),
            None => None,
        }
    }

    /// The ids, in the order of registration.
    pub fn ids(&self) -> (out: Vec<String>)
        ensures
            out@.len() == self.by_id@.len(),
            forall|i: int| 0 <= i < out@.len() ==> (#[trigger] out@[i])@ == self.by_id@[i].0@,
    {
        let mut out: Vec<String> = Vec::new();
        let mut i: usize = 0;
        while i < self.by_id.len()
            invariant
                i <= self.by_id@.len(),
                out@.len() == i,
                forall|k: int| 0 <= k < i ==> (#[trigger] out@[k])@ == self.by_id@[k].0@,
            decreases self.by_id.len() - i,
        {
            out.push(self.by_id[i].0.clone());
            i = i + 1;
        }
        out
    }

    /// The slots of a task that take part in its pipeline, in order. A slot that is
    /// switched off, or of a plugin that is not there, is skipped.
    pub fn active_slots(&self, configs: &Vec<TaskPluginConfig>) -> (out: Vec<(usize, usize)>)
        ensures
            out@ == live_slots(self.by_id@, configs@, configs@.len() as int),
            forall|k: int|
                0 <= k < out@.len() ==> (#[trigger] out@[k]).0 < configs@.len() && out@[k].1
                    < self.by_id@.len(),
    {
        let mut out: Vec<(usize, usize)> = Vec::new();
        let mut i: usize = 0;
        while i < configs.len()
            invariant
                i <= configs@.len(),
                out@ == live_slots(self.by_id@, configs@, i as int),
                forall|k: int|
                    0 <= k < out@.len() ==> (#[trigger] out@[k]).0 < configs@.len() && out@[k].1
                        < self.by_id@.len(),
            decreases configs.len() - i,
        {
            if configs[i].enabled {
                if let Some(k) = self.position(configs[i].id.as_str()) {
                    out.push((i, k));
                }
            }
            i = i + 1;
        }
        out
    }
}

/// What the slots that take part were built into, or the first that could not be
/// built.
pub open spec fn assembled(
    slots: Seq<(usize, usize)>,
    configs: Seq<TaskPluginConfig>,
    built: Seq<Result<SharedTransform, String>>,
    n: int,
) -> Result<Seq<SharedTransform>, Seq<char>>
    decreases n,
{
    if n <= 0 {
        Ok(Seq::empty())
    } else {
        match (assembled(slots, configs, built, n - 1), built[n - 1]) {
            (Err(e), _) => Err(e),
            (Ok(l), Ok(t)) => Ok(l.push(t)),
            (Ok(_), Err(e)) => Err(
                "plugin '"@ + configs[slots[n - 1].0 as int].id@ + ("' build failed: "@ + e@),
            ),
        }
    }
}

proof fn lemma_assembled_error(
    slots: Seq<(usize, usize)>,
    configs: Seq<TaskPluginConfig>,
    built: Seq<Result<SharedTransform, String>>,
    i: int,
    n: int,
)
    requires
        0 <= i <= n,
        assembled(slots, configs, built, i) is Err,
    ensures
        assembled(slots, configs, built, n) == assembled(slots, configs, built, i),
    decreases n - i,
{
    if i < n {
        lemma_assembled_error(slots, configs, built, i, n - 1);
    }
}

/// Puts a pipeline together. `slots` are the slots that take part, and `built` is
/// what their plugins made of them.
pub fn build_pipeline(
    slots: &Vec<(usize, usize)>,
    configs: &Vec<TaskPluginConfig>,
    built: Vec<Result<SharedTransform, String>>,
) -> (out: Result<TransformPipeline, String>)
    requires
        built@.len() == slots@.len(),
        forall|k: int| 0 <= k < slots@.len() ==> (#[trigger] slots@[k]).0 < configs@.len(),
    ensures
        match (out, assembled(slots@, configs@, built@, slots@.len() as int)) {
            (Ok(p), Ok(l)) => p.transforms@ == l,
            (Err(e), Err(f)) => e@ == f,
            _ => false,
        },
{
    let ghost all = built@;
    let mut rest: Vec<Result<SharedTransform, String>> = built;
    let mut out: TransformPipeline = TransformPipeline::new();
    assert(out.transforms@ =~= Seq::empty());
    let mut i: usize = 0;
    assert(all.skip(0) =~= all);
    while i < slots.len()
        invariant
            i <= slots@.len(),
            all.len() == slots@.len(),
            all == built@,
            rest@ == all.skip(i as int),
            forall|k: int| 0 <= k < slots@.len() ==> (#[trigger] slots@[k]).0 < configs@.len(),
            assembled(slots@, configs@, all, i as int) == Ok::<Seq<SharedTransform>, Seq<char>>(
                out.transforms@,
            ),
        decreases slots.len() - i,
    {
        let b: Result<SharedTransform, String> = rest.remove(0);
        assert(b == all[i as int]);
        assert(rest@ =~= all.skip(i + 1));
        assert(slots@[i as int].0 < configs@.len());
        match b {
            Ok(t) => {
                out.push(t);
            },
            Err(e) => {
                proof {
                    lemma_assembled_error(slots@, configs@, all, i + 1, slots@.len() as int);
                }
                return Err(
                    join3(
                        "plugin '",
                        configs[slots[i].0].id.as_str(),
                        join2("' build failed: ", e.as_str()).as_str(),
                    ),
                );
            },
        }
        i = i + 1;
    }
    Ok(out)
}

/// Undoes a pipeline on bytes on their way to a client; without one they stay as
/// they are.
pub fn transform_outgoing(pipeline: Option<&TransformPipeline>, merged_offset: u64, data: Vec<u8>) -> (out:
    Vec<u8>)
    requires
        pipeline matches Some(p) ==> forall|i: int|
            0 <= i < p.transforms@.len() ==> (#[trigger] p.transforms@[i]).inner.admits(
                merged_offset,
                data@.len(),
            ),
    ensures
        out@ == match pipeline {
            Some(p) => if data@.len() == 0 {
                data@
            } else {
                undone(p.transforms@, p.transforms@.len() as int, merged_offset, data@)
            },
            None => data@,
        },
        out@.len() == data@.len(),
{
    let mut data: Vec<u8> = data;
    if let Some(p) = pipeline {
        if data.len() > 0 {
            p.apply_reverse(merged_offset, data.as_mut_slice());
        }
    }
    data
}

/// Registering keeps the ids apart: no id is there twice.
pub proof fn law_ids_stay_apart<P>(before: Seq<(String, P)>, id: String, plugin: P)
    requires
        forall|i: int, j: int|
            0 <= i < j < before.len() ==> (#[trigger] before[i]).0@ != (#[trigger] before[j]).0@,
    ensures
        ({
            let after = match plugin_from(before, id@, 0) {
                Some(i) => before.update(i, (id, plugin)),
                None => before.push((id, plugin)),
            };
            forall|i: int, j: int|
                0 <= i < j < after.len() ==> (#[trigger] after[i]).0@ != (#[trigger] after[j]).0@
        }),
{
    lemma_plugin_from(before, id@, 0);
}

proof fn lemma_plugin_from<P>(by_id: Seq<(String, P)>, id: Seq<char>, i: int)
    requires
        0 <= i,
    ensures
        match plugin_from(by_id, id, i) {
            Some(k) => i <= k < by_id.len() && by_id[k].0@ == id,
            None => forall|j: int| i <= j < by_id.len() ==> (#[trigger] by_id[j]).0@ != id,
        },
    decreases by_id.len() - i,
{
    if i < by_id.len() && by_id[i].0@ != id {
        lemma_plugin_from(by_id, id, i + 1);
    }
}

} // verus!
