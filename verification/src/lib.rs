//! Classifies a chat message into an ordered sequence of typed segments:
//! plain text, emote references, inline or fenced code, user mentions and
//! URLs. A single-pass scanner produces raw candidates, two reclassification
//! layers upgrade them using caller-supplied vocabularies, and a final
//! coalescing pass merges adjacent text runs back into contiguous slices of
//! the original buffer.

pub mod model;
pub mod part;
pub mod props;
