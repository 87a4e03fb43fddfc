use gc_wal::pipeline::ServingPipeline;

#[test]
fn new_pipeline_holds_its_spec_and_nothing_else() {
    let pipeline: ServingPipeline<String, u8> = ServingPipeline::new("spec".to_string());
    assert_eq!(pipeline.api_version, None);
    assert_eq!(pipeline.kind, None);
    assert!(pipeline.metadata.is_none());
    assert_eq!(*pipeline.spec, "spec".to_string());
    assert_eq!(pipeline.status, None);
}

#[test]
fn pipelines_compare_by_their_fields() {
    let a: ServingPipeline<u8, u8> = ServingPipeline::new(1);
    let mut b: ServingPipeline<u8, u8> = ServingPipeline::new(1);
    assert_eq!(a, b.clone());
    b.kind = Some("ServingPipeline".to_string());
    assert_ne!(a, b);
}
