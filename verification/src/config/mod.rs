use vstd::prelude::*;

verus! {

/// Where the tracker watches and where it persists its data. Paths are held
/// as plain strings with '/' separating their components.
pub struct Configuration {
    pub user_config_path: String,
    pub track_paths: Vec<String>,
    pub raw_data_path: String,
    pub processed_data_path: String,
}

impl Configuration {
    /// Builds a configuration from every field, for callers that load the
    /// user's configuration file themselves.
    pub fn new(
        user_config_path: String,
        track_paths: Vec<String>,
        raw_data_path: String,
        processed_data_path: String,
    ) -> (r: Self)
        ensures
            r.user_config_path == user_config_path,
            r.track_paths == track_paths,
            r.raw_data_path == raw_data_path,
            r.processed_data_path == processed_data_path,
    {
        Configuration { user_config_path, track_paths, raw_data_path, processed_data_path }
    }

    /// Used for creating mock configuration files to test other modules.
    pub fn new_mock_config(
        track_paths: Vec<String>,
        raw_data_path: String,
        processed_data_path: String,
    ) -> (r: Self)
        ensures
            r.user_config_path@ == Seq::<char>::empty(),
            r.track_paths == track_paths,
            r.raw_data_path == raw_data_path,
            r.processed_data_path == processed_data_path,
    {
        Configuration {
            user_config_path: String::new(),  // private field, irrelevant when mocking
            track_paths,
            raw_data_path,
            processed_data_path,
        }
    }

}

} // verus!
