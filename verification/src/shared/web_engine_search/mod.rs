//! Web search over plain HTTP: provider pages, merge and fan-out.

pub mod consensus;
pub mod ddg;
pub mod decode;
pub mod dedup;
pub mod fanout;
pub mod startpage;

pub use ddg::{
    is_ddg_anomaly, parse_continuation_form, parse_ddg_html, unwrap_ddg_url, DDG_HTML_URL,
    DDG_REFERER,
};
pub use dedup::{dedup_key, merge_sources};
pub use fanout::all_failed_message;
pub use startpage::{
    is_startpage_challenge, parse_search_form_inputs, parse_startpage_html, sanitize_startpage_url,
    STARTPAGE_HOME_URL, STARTPAGE_SEARCH_URL,
};
