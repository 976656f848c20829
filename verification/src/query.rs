//! The request for the settings of an export file.
use vstd::prelude::*;
use vstd::string::StringExecFns;

verus! {

/// The text of the GraphQL request before the file name.
pub open spec fn query_head() -> Seq<char> {
    r#"{"query": "{ allExportFiles(page:0, perPage: 1, filter: { filename: \""#@
}

/// The text of the GraphQL request after the file name.
pub open spec fn query_tail() -> Seq<char> {
    r#"\" }) { filename, shop { id }, merchants { id }, isThrough, categories { legacyCategories { ymlId }}, legacyCategories { ymlId }, parkedDomain { name }, partnerTrackCode }}"}"#@
}

/// The body of the request that asks the settings service for the export
/// file `filename`: the file name spliced into the query as it is.
pub fn export_file_query(filename: &str) -> (body: String)
    ensures
        body@ == query_head() + filename@ + query_tail(),
{
    let mut body = String::from_str(
        r#"{"query": "{ allExportFiles(page:0, perPage: 1, filter: { filename: \""#,
    );
    body.append(filename);
    body.append(
        r#"\" }) { filename, shop { id }, merchants { id }, isThrough, categories { legacyCategories { ymlId }}, legacyCategories { ymlId }, parkedDomain { name }, partnerTrackCode }}"}"#,
    );
    body
}

} // verus!
