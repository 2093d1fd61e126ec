pub mod codec;
pub mod laws;
pub mod model;
pub mod resolver;
pub mod shell;
pub mod text;

pub use model::BrowserState;
pub use model::Download;
pub use model::Msg;
pub use model::SearchEngine;
pub use model::Tab;
pub use shell::App;
