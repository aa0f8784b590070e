//! Building blocks for reading Outlook PST files: the layout of the block and
//! heap references of the node database, the byte permutation that encodes
//! block data, and the extraction of HTML encapsulated in Outlook RTF bodies.

pub mod charset;
pub mod structs;
pub mod text;
pub mod rtf_lex;
pub mod rtf_html_deencapsulate;
pub mod consts;
pub mod supporting_functions;
