//! What the command line and the HTTP interface decide.
pub mod answer;
pub mod http;
pub mod laws;
pub mod options;
pub mod output;
pub mod records;
pub mod report_laws;
pub mod request;
pub mod request_laws;
pub mod url;

pub use crate::web::answer::{
    close_stream, open_stream, queue_full_answer, search_answer, stream_loss, StreamLoss,
    StreamOpening,
};
pub use crate::web::http::{
    admit_search, http_chunk, is_client_disconnect, is_disconnect_io_error, json_error, last_chunk,
    request_state, request_text, response_head, route_request, stream_head, ConnectionError, Page,
    RequestState, Route, StaticResponse,
};
pub use crate::web::options::{
    index_settings_from_cli, parse_options, search_options_from_cli, IndexSettings, OptionValue,
    ParsedOptions,
};
pub use crate::web::output::{
    build_report_json, error_event_line, json_string, log_text, prepare_report_json,
    queued_event_line, search_event_json, search_event_line, search_report_json,
};
pub use crate::web::records::{parse_record_line, progress_share, push_line, record_line, LineError};
pub use crate::web::request::{parse_search_request, RefusedSearch, SearchRequest};
pub use crate::web::url::{percent_decode, parse_query_string};
