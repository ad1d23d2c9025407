//! Plain response shapes for callers that expose the analysis over a
//! service boundary: summaries of projects and of finished analyses.

use vstd::prelude::*;

use crate::insights::RepositoryInsights;
use crate::mapper::RepositoryMapper;

verus! {

/// A request to gather content from chosen paths of a project.
#[derive(Debug, PartialEq)]
pub struct ContexterRequest {
    pub paths: Option<Vec<String>>,
}

/// A named project and where it lives.
#[derive(Debug, PartialEq)]
pub struct ProjectSummary {
    pub name: String,
    pub path: String,
}

/// The list of configured projects.
#[derive(Debug, PartialEq)]
pub struct ProjectListResponse {
    pub projects: Vec<ProjectSummary>,
}

/// A project with the files it holds.
#[derive(Debug, PartialEq)]
pub struct ProjectMetadata {
    pub name: String,
    pub path: String,
    pub files: Vec<String>,
}

/// Gathered project content.
#[derive(Debug, PartialEq)]
pub struct ProjectContentResponse {
    pub content: String,
}

/// A caller-facing error message.
#[derive(Debug, PartialEq)]
pub struct ErrorResponse {
    pub error: String,
}

/// The summary of one finished analysis.
#[derive(Debug, PartialEq)]
pub struct RepositoryAnalysisResponse {
    pub project_name: String,
    pub total_components: usize,
    pub entry_points: Vec<String>,
    pub dependency_cycles: usize,
    pub most_connected_components: Vec<String>,
    pub topological_order: Vec<String>,
}

/// The rendered map of one finished analysis, with its insights.
#[derive(Debug, PartialEq)]
pub struct RepositoryMapResponse {
    pub project_name: String,
    pub map: String,
    pub insights: RepositoryInsights,
}

impl RepositoryAnalysisResponse {
    /// Summarizes a finished analysis under the given project name.
    pub fn of_analysis(project_name: String, mapper: &RepositoryMapper) -> (r:
        RepositoryAnalysisResponse)
        ensures
            r.project_name@ == project_name@,
            r.total_components == mapper.insights.total_components,
            r.entry_points.deep_view() == mapper@.insights.entry_points,
            r.dependency_cycles == mapper.graph.cycles.len(),
            r.most_connected_components.deep_view()
                == mapper@.insights.most_connected_components,
            r.topological_order.deep_view() == mapper@.topological_order,
    {
        RepositoryAnalysisResponse {
            project_name,
            total_components: mapper.insights.total_components,
            entry_points: clone_ids(&mapper.insights.entry_points),
            dependency_cycles: mapper.graph.cycles.len(),
            most_connected_components: clone_ids(&mapper.insights.most_connected_components),
            topological_order: clone_ids(&mapper.topological_order),
        }
    }
}

/// Copies a list of ids.
pub fn clone_ids(v: &Vec<String>) -> (r: Vec<String>)
    ensures
        r.deep_view() == v.deep_view(),
        r@.len() == v@.len(),
{
    let mut r: Vec<String> = Vec::new();
    let mut i: usize = 0;
    proof {
        assert(r.deep_view() =~= v.deep_view().take(0int));
    }
    while i < v.len()
        invariant
            0 <= i <= v.len(),
            r.deep_view() == v.deep_view().take(i as int),
            r@.len() == i,
        decreases v.len() - i,
    {
        r.push(v[i].clone());
        proof {
            assert(r.deep_view() =~= v.deep_view().take(i as int + 1));
        }
        i = i + 1;
    }
    proof {
        assert(v.deep_view().take(v@.len() as int) =~= v.deep_view());
    }
    r
}

} // verus!
