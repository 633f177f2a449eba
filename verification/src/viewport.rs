//! Checks that a node is usable as a plugin of the viewport pipeline, and
//! the chain of plugins that the pipeline connects.
//!
//! A plugin needs an output port `output` and an output port `scene` of the
//! scene-graph type. A plugin that continues the pipeline also has an input
//! port `input` and an input port `scene` of the scene-graph type; a plugin
//! that starts it has neither.

use vstd::prelude::*;
use std::any::TypeId;
use crate::text::chars_of;

verus! {

#[verifier::external_type_specification]
#[verifier::external_body]
pub struct ExTypeId(std::any::TypeId);

/// Compares two type identifiers (std's `TypeId == TypeId`).
///
/// Claimed: the result is true exactly when both stand for the same type.
#[verifier::external_body]
fn same_type(a: &TypeId, b: &TypeId) -> (r: bool)
    ensures
        r == (*a == *b),
{
    *a == *b
}

/// Whether the text `s` is exactly `lit`.
fn str_is(s: &str, lit: &str) -> (r: bool)
    ensures
        r == (s@ == lit@),
{
    let a = chars_of(s);
    let b = chars_of(lit);
    if a.len() != b.len() {
        return false;
    }
    let mut i: usize = 0;
    while i < a.len()
        invariant
            a.len() == b.len(),
            a@ == s@,
            b@ == lit@,
            i <= a.len(),
            forall|k: int| 0 <= k < i ==> a@[k] == b@[k],
        decreases a.len() - i,
    {
        if a[i] != b[i] {
            assert(a@[i as int] != b@[i as int]);
            return false;
        }
        i += 1;
    }
    assert(a@ =~= b@);
    true
}

/// Position of a plugin in the pipeline.
#[derive(Debug, Clone, Copy, PartialEq, Eq, Structural)]
pub enum PluginPosition {
    /// Starts the pipeline: no input from a previous plugin.
    Initial,
    /// Receives the output and scene of the previous plugin.
    Subsequent,
}

/// Why a node cannot be a plugin.
#[derive(Debug, Clone, Copy, PartialEq, Eq, Structural)]
pub enum ViewportPluginValidationError {
    /// Missing output port `output`.
    MissingOutputPort,
    /// Output port `scene` missing or not of the scene-graph type.
    InvalidSceneOutputPort,
    /// Input ports `input` and `scene` do not fit together.
    InputPortMismatch,
}

/// Why a plugin cannot be added to the pipeline.
#[derive(Debug, Clone, Copy, PartialEq, Eq)]
pub enum PipelineAddError {
    /// The output type of the last plugin differs from the input type of the new one.
    TypeMismatch { input_type: TypeId, output_type: TypeId },
    /// A plugin that continues the pipeline was added to an empty pipeline.
    SubsequentPluginInEmptyPipeline,
}

/// How a plugin at `position` joins a pipeline: `Ok(true)` when it must be
/// connected to the previous plugin, `Ok(false)` when it starts afresh (an
/// initial plugin ignores what came before), and an error when a continuing
/// plugin has no predecessor.
pub fn plugin_connection(position: PluginPosition, has_previous: bool) -> (r: Result<bool, PipelineAddError>)
    ensures
        position == PluginPosition::Initial ==> r == Ok::<bool, PipelineAddError>(false),
        position == PluginPosition::Subsequent && has_previous ==> r == Ok::<bool, PipelineAddError>(true),
        position == PluginPosition::Subsequent && !has_previous ==> r == Err::<bool, PipelineAddError>(
            PipelineAddError::SubsequentPluginInEmptyPipeline,
        ),
{
    match position {
        PluginPosition::Initial => Ok(false),
        PluginPosition::Subsequent => {
            if has_previous {
                Ok(true)
            } else {
                Err(PipelineAddError::SubsequentPluginInEmptyPipeline)
            }
        },
    }
}

/// The type of the first port of `ports` named `name`.
pub open spec fn find_port(ports: Seq<(&str, TypeId)>, name: Seq<char>) -> Option<TypeId>
    decreases ports.len(),
{
    if ports.len() == 0 {
        None
    } else if ports[0].0@ == name {
        Some(ports[0].1)
    } else {
        find_port(ports.skip(1), name)
    }
}

/// The verdict on a node with the given ports, `scene` being the scene-graph type.
pub open spec fn plugin_verdict(
    inputs: Seq<(&str, TypeId)>,
    outputs: Seq<(&str, TypeId)>,
    scene: TypeId,
) -> Result<PluginPosition, ViewportPluginValidationError> {
    let input_type = find_port(inputs, "input"@);
    let output_type = find_port(outputs, "output"@);
    let scene_input_type = find_port(inputs, "scene"@);
    let scene_output_type = find_port(outputs, "scene"@);
    if scene_output_type != Some(scene) {
        Err(ViewportPluginValidationError::InvalidSceneOutputPort)
    } else if output_type is None {
        Err(ViewportPluginValidationError::MissingOutputPort)
    } else if input_type is Some && scene_input_type is Some {
        if scene_input_type == Some(scene) {
            Ok(PluginPosition::Subsequent)
        } else {
            Err(ViewportPluginValidationError::InputPortMismatch)
        }
    } else if input_type is Some || scene_input_type is Some {
        Err(ViewportPluginValidationError::InputPortMismatch)
    } else {
        Ok(PluginPosition::Initial)
    }
}

/// The type of the first port of `ports` named `name`.
fn port_type(ports: &[(&str, TypeId)], name: &str) -> (r: Option<TypeId>)
    ensures
        r == find_port(ports@, name@),
{
    let mut i: usize = 0;
    assert(ports@.skip(0) == ports@);
    while i < ports.len()
        invariant
            i <= ports.len(),
            find_port(ports@, name@) == find_port(ports@.skip(i as int), name@),
        decreases ports.len() - i,
    {
        let ghost rest = ports@.skip(i as int);
        assert(rest[0] == ports@[i as int]);
        assert(rest.skip(1) == ports@.skip(i + 1));
        if str_is(ports[i].0, name) {
            return Some(ports[i].1);
        }
        i += 1;
    }
    None
}

/// Decides whether a node with these ports can be a plugin, and where.
///
/// `scene_graph` is the type of the scene graph that plugins pass on.
pub fn validate_plugin(
    inputs: &[(&str, TypeId)],
    outputs: &[(&str, TypeId)],
    scene_graph: TypeId,
) -> (r: Result<PluginPosition, ViewportPluginValidationError>)
    ensures
        r == plugin_verdict(inputs@, outputs@, scene_graph),
{
    let input_type = port_type(inputs, "input");
    let output_type = port_type(outputs, "output");
    let scene_input_type = port_type(inputs, "scene");
    let scene_output_type = port_type(outputs, "scene");

    match scene_output_type {
        Some(t) => {
            if !same_type(&t, &scene_graph) {
                return Err(ViewportPluginValidationError::InvalidSceneOutputPort);
            }
        },
        None => {
            return Err(ViewportPluginValidationError::InvalidSceneOutputPort);
        },
    }
    if output_type.is_none() {
        return Err(ViewportPluginValidationError::MissingOutputPort);
    }
    match (input_type, scene_input_type) {
        (Some(_), None) | (None, Some(_)) => Err(ViewportPluginValidationError::InputPortMismatch),
        (Some(_), Some(scene)) => {
            if same_type(&scene, &scene_graph) {
                Ok(PluginPosition::Subsequent)
            } else {
                Err(ViewportPluginValidationError::InputPortMismatch)
            }
        },
        (None, None) => Ok(PluginPosition::Initial),
    }
}

/// The plugins of a viewport pipeline, in order, each known by the type of
/// its `output` port, which the next plugin takes as its `input`.
#[derive(Debug, Clone)]
pub struct ViewportPipeline {
    pub outputs: Vec<TypeId>,
}

impl ViewportPipeline {
    /// An empty pipeline.
    pub fn new() -> (r: ViewportPipeline)
        ensures
            r.outputs@.len() == 0,
    {
        ViewportPipeline { outputs: Vec::new() }
    }

    /// Adds a plugin at `position` whose `input` port has type `input_type`
    /// and whose `output` port has type `output_type`.
    ///
    /// A plugin that starts the pipeline is always added (its `input_type`
    /// is not read). One that continues it needs a previous plugin whose
    /// output has its input type; otherwise nothing changes and the error
    /// says why.
    pub fn add_plugin(&mut self, position: PluginPosition, input_type: TypeId, output_type: TypeId) -> (r: Result<
        (),
        PipelineAddError,
    >)
        ensures
            match position {
                PluginPosition::Initial => r is Ok && final(self).outputs@ == old(self).outputs@.push(output_type),
                PluginPosition::Subsequent => if old(self).outputs@.len() == 0 {
                    r == Err::<(), PipelineAddError>(PipelineAddError::SubsequentPluginInEmptyPipeline)
                        && final(self).outputs@ == old(self).outputs@
                } else if old(self).outputs@.last() == input_type {
                    r is Ok && final(self).outputs@ == old(self).outputs@.push(output_type)
                } else {
                    r == Err::<(), PipelineAddError>(
                        PipelineAddError::TypeMismatch { input_type, output_type: old(self).outputs@.last() },
                    ) && final(self).outputs@ == old(self).outputs@
                },
            },
    {
        match plugin_connection(position, self.outputs.len() > 0) {
            Err(e) => {
                return Err(e);
            },
            Ok(connect) => {
                if connect {
                    let last = self.outputs[self.outputs.len() - 1];
                    if !same_type(&last, &input_type) {
                        return Err(PipelineAddError::TypeMismatch { input_type, output_type: last });
                    }
                }
            },
        }
        self.outputs.push(output_type);
        Ok(())
    }

    /// Removes the last plugin, if any.
    pub fn remove_last_plugin(&mut self)
        ensures
            final(self).outputs@ == if old(self).outputs@.len() > 0 {
                old(self).outputs@.drop_last()
            } else {
                old(self).outputs@
            },
    {
        let _ = self.outputs.pop();
    }

    /// The number of plugins.
    pub fn len(&self) -> (r: usize)
        ensures
            r == self.outputs@.len(),
    {
        self.outputs.len()
    }

    /// Whether the pipeline has no plugin.
    pub fn is_empty(&self) -> (r: bool)
        ensures
            r == (self.outputs@.len() == 0),
    {
        self.outputs.len() == 0
    }
}

impl Default for ViewportPipeline {
    fn default() -> (r: ViewportPipeline)
        ensures
            r.outputs@.len() == 0,
    {
        ViewportPipeline::new()
    }
}

} // verus!
