//! The descriptor of a serving pipeline: the resource that names the
//! pipeline whose windows the log records. It is plain data, and the log
//! reads none of it.

use vstd::prelude::*;

verus! {

/// The metadata of a Kubernetes object, of the crate `k8s_openapi`. The
/// descriptor carries it and never looks inside.
#[verifier::external_type_specification]
#[verifier::external_body]
pub struct ExObjectMeta(k8s_openapi::apimachinery::pkg::apis::meta::v1::ObjectMeta);

/// A serving pipeline as a resource. `S` is what the pipeline is asked
/// to be, its spec, and `T` what is reported of it, its status.
#[derive(Clone, Debug, PartialEq)]
pub struct ServingPipeline<S, T> {
    /// The versioned schema of this representation of the object.
    pub api_version: Option<String>,
    /// The kind of resource that this object stands for.
    pub kind: Option<String>,
    pub metadata: Option<k8s_openapi::apimachinery::pkg::apis::meta::v1::ObjectMeta>,
    pub spec: Box<S>,
    pub status: Option<Box<T>>,
}

impl<S, T> ServingPipeline<S, T> {
    /// The descriptor that holds `spec` and nothing else.
    pub fn new(spec: S) -> (pipeline: ServingPipeline<S, T>)
        ensures
            pipeline.api_version is None,
            pipeline.kind is None,
            pipeline.metadata is None,
            *pipeline.spec == spec,
            pipeline.status is None,
    {
        ServingPipeline {
            api_version: None,
            kind: None,
            metadata: None,
            spec: Box::new(spec),
            status: None,
        }
    }
}

} // verus!
