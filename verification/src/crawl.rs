//! Crawler data: schools, crawl samples and their tab-separated form, CSV
//! school lists, command-line options, file names and the HTML-to-text
//! conversion of fetched pages.

pub mod config;
pub mod sample;
pub mod schools;

pub use config::{help_text, parse_common_args_from, CrawlConfig};
pub use sample::{sample_from_tsv, sample_to_tsv, CrawlSample};
pub use schools::{find_header, load_schools, looks_like_header, mock_schools, normalize_url, parse_schools, split_csv_line, School};
pub mod page;
pub mod child;
pub mod report;
