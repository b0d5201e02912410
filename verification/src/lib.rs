//! Repairs of exported wiki documents: links, leftovers of the export, and
//! above all the diagrams embedded in them. The core is the sanitizing of a
//! diagram block: quoted node labels are freed of markdown, nodes that lost
//! their label are repaired, and then, by the kind of the diagram, branch
//! labels move to the edges they belong to, or participants get aliases.
//!
//! Every contract speaks of texts as sequences of characters. What a
//! regular expression matches, what white space is and what the lower case
//! of a text is are taken from the libraries that decide it, under names.
pub mod block;
pub mod cleanup;
pub mod flowchart;
pub mod graph;
pub mod index;
pub mod label;
pub mod layout;
pub mod migrate;
pub mod pattern;
pub mod pdf;
pub mod pipeline;
pub mod score;
pub mod sequence;
pub mod settled;
pub mod text;
pub mod textmap;
