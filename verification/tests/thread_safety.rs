use project::{
    AccessRecorder, CacheValidator, DataId, DataView, DocumentId, DocumentView, ModuleRegistry, Project, ProjectView,
    TrackedDataView, TrackedDocumentView, TrackedProjectView, UserId,
};

fn assert_send_sync<T: Send + Sync>() {}

#[test]
fn test_send_sync() {
    assert_send_sync::<ModuleRegistry>();

    assert_send_sync::<UserId>();
    assert_send_sync::<DataId>();
    assert_send_sync::<DocumentId>();

    assert_send_sync::<Project>();
    assert_send_sync::<ProjectView>();
    assert_send_sync::<DocumentView<'_>>();
    assert_send_sync::<DataView<'_>>();

    assert_send_sync::<CacheValidator>();
    assert_send_sync::<AccessRecorder>();
    assert_send_sync::<TrackedProjectView<'_>>();
    assert_send_sync::<TrackedDocumentView<'_, '_>>();
    assert_send_sync::<TrackedDataView<'_, '_>>();
}
