use project::viewport::{plugin_connection, validate_plugin, PipelineAddError, PluginPosition, ViewportPipeline, ViewportPluginValidationError};
use std::any::TypeId;

struct Scene;

fn scene() -> TypeId {
    TypeId::of::<Scene>()
}

#[test]
fn initial_plugin_has_no_inputs() {
    let outputs = [("output", TypeId::of::<u32>()), ("scene", scene())];
    assert_eq!(validate_plugin(&[], &outputs, scene()), Ok(PluginPosition::Initial));
}

#[test]
fn subsequent_plugin_takes_input_and_scene() {
    let inputs = [("scene", scene()), ("input", TypeId::of::<u32>())];
    let outputs = [("output", TypeId::of::<u8>()), ("scene", scene())];
    assert_eq!(validate_plugin(&inputs, &outputs, scene()), Ok(PluginPosition::Subsequent));
}

#[test]
fn missing_scene_output_is_rejected() {
    let outputs = [("output", TypeId::of::<u32>())];
    assert_eq!(
        validate_plugin(&[], &outputs, scene()),
        Err(ViewportPluginValidationError::InvalidSceneOutputPort)
    );
    let outputs = [("output", TypeId::of::<u32>()), ("scene", TypeId::of::<u32>())];
    assert_eq!(
        validate_plugin(&[], &outputs, scene()),
        Err(ViewportPluginValidationError::InvalidSceneOutputPort)
    );
}

#[test]
fn missing_output_is_rejected() {
    let outputs = [("scene", scene())];
    assert_eq!(
        validate_plugin(&[], &outputs, scene()),
        Err(ViewportPluginValidationError::MissingOutputPort)
    );
}

#[test]
fn mismatched_inputs_are_rejected() {
    let outputs = [("output", TypeId::of::<u32>()), ("scene", scene())];
    let only_input = [("input", TypeId::of::<u32>())];
    assert_eq!(
        validate_plugin(&only_input, &outputs, scene()),
        Err(ViewportPluginValidationError::InputPortMismatch)
    );
    let only_scene = [("scene", scene())];
    assert_eq!(
        validate_plugin(&only_scene, &outputs, scene()),
        Err(ViewportPluginValidationError::InputPortMismatch)
    );
    let wrong_scene = [("input", TypeId::of::<u32>()), ("scene", TypeId::of::<u8>())];
    assert_eq!(
        validate_plugin(&wrong_scene, &outputs, scene()),
        Err(ViewportPluginValidationError::InputPortMismatch)
    );
}

#[test]
fn plugins_join_the_pipeline_by_position() {
    assert_eq!(plugin_connection(PluginPosition::Initial, false), Ok(false));
    assert_eq!(plugin_connection(PluginPosition::Initial, true), Ok(false));
    assert_eq!(plugin_connection(PluginPosition::Subsequent, true), Ok(true));
    assert_eq!(
        plugin_connection(PluginPosition::Subsequent, false),
        Err(PipelineAddError::SubsequentPluginInEmptyPipeline)
    );
}

struct CounterState;

fn counter() -> TypeId {
    TypeId::of::<CounterState>()
}

#[test]
fn test_remove_node_from_empty_pipeline() {
    let mut pipeline = ViewportPipeline::default();
    pipeline.remove_last_plugin();
    assert_eq!(pipeline.len(), 0);
}

#[test]
fn test_add_plugin_dynamic() {
    let mut graph = ViewportPipeline::default();

    let initial_outputs = [("scene", scene()), ("output", counter())];
    let position = validate_plugin(&[], &initial_outputs, scene()).unwrap();
    assert!(graph.add_plugin(position, TypeId::of::<()>(), counter()).is_ok());
    assert_eq!(graph.len(), 1);

    let inputs = [("scene", scene()), ("input", counter())];
    let outputs = [("scene", scene()), ("output", counter())];
    let position = validate_plugin(&inputs, &outputs, scene()).unwrap();
    assert!(graph.add_plugin(position, counter(), counter()).is_ok());
    assert_eq!(graph.len(), 2);

    let result = validate_plugin(&[], &[], scene());
    assert!(matches!(
        result,
        Err(ViewportPluginValidationError::InvalidSceneOutputPort)
    ));
}

#[test]
fn test_invalid_node_errors() {
    let result = validate_plugin(&[], &[], scene());
    assert!(matches!(
        result,
        Err(ViewportPluginValidationError::InvalidSceneOutputPort)
    ));

    let outputs = [("graph", TypeId::of::<String>())];
    let result = validate_plugin(&[], &outputs, scene());
    assert!(matches!(
        result,
        Err(ViewportPluginValidationError::InvalidSceneOutputPort)
    ));
}

#[test]
fn test_incompatible_input_ports() {
    let inputs = [("input", TypeId::of::<usize>())];
    let outputs = [("scene", scene()), ("output", TypeId::of::<usize>())];
    let result = validate_plugin(&inputs, &outputs, scene());
    assert!(matches!(
        result,
        Err(ViewportPluginValidationError::InputPortMismatch)
    ));
}

#[test]
fn test_type_mismatch_error() {
    let mut graph = ViewportPipeline::default();
    graph
        .add_plugin(PluginPosition::Initial, TypeId::of::<()>(), counter())
        .unwrap();

    let inputs = [("scene", scene()), ("input", TypeId::of::<String>())];
    let outputs = [("scene", scene()), ("output", TypeId::of::<usize>())];
    let position = validate_plugin(&inputs, &outputs, scene()).unwrap();
    let result = graph.add_plugin(position, TypeId::of::<String>(), TypeId::of::<usize>());
    assert!(matches!(result, Err(PipelineAddError::TypeMismatch { .. })));
    assert_eq!(
        result,
        Err(PipelineAddError::TypeMismatch {
            input_type: TypeId::of::<String>(),
            output_type: counter()
        })
    );
    assert_eq!(graph.len(), 1);
}

#[test]
fn test_dependent_node_in_empty_graph() {
    let mut graph = ViewportPipeline::default();
    let result = graph.add_plugin(PluginPosition::Subsequent, counter(), counter());
    assert!(matches!(
        result,
        Err(PipelineAddError::SubsequentPluginInEmptyPipeline)
    ));
    assert!(graph.is_empty());
}

#[test]
fn initial_plugin_restarts_after_removal() {
    let mut graph = ViewportPipeline::new();
    graph.add_plugin(PluginPosition::Initial, counter(), counter()).unwrap();
    graph.add_plugin(PluginPosition::Subsequent, counter(), scene()).unwrap();
    assert_eq!(graph.len(), 2);
    graph.remove_last_plugin();
    assert_eq!(graph.len(), 1);
    assert_eq!(
        graph.add_plugin(PluginPosition::Subsequent, scene(), counter()),
        Err(PipelineAddError::TypeMismatch { input_type: scene(), output_type: counter() })
    );
    graph.remove_last_plugin();
    assert!(graph.is_empty());
}
