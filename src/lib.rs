pub mod alfred;
pub mod listing;
pub mod project;
pub mod text;
pub mod zed_db;

pub use alfred::{AlfredIcon, AlfredItem, AlfredOutput};
pub use project::{detect_projects, get_icon_for_project, get_project_directories, is_project, Project};
pub use zed_db::{get_recent_projects, RemoteInfo, ZedRecentProject};
