use vstd::prelude::*;

verus! {

/// The settings file of the simulation called `name`.
pub fn settings_path(name: &str) -> (p: String)
    ensures
        p@ == "resources/simulations/"@ + name@ + "/settings.json"@,
{
    "resources/simulations/".to_owned().concat(name).concat("/settings.json")
}

/// The settings a new simulation starts from.
pub fn default_settings_path() -> (p: String)
    ensures
        p@ == "resources/default_settings.json"@,
{
    "resources/default_settings.json".to_owned()
}

/// The directory of the simulation called `name`.
pub fn simulation_dir(name: &str) -> (p: String)
    ensures
        p@ == "resources/simulations/"@ + name@,
{
    "resources/simulations/".to_owned().concat(name)
}

/// The saved state of the simulation called `name`.
pub fn simulation_file_path(name: &str) -> (p: String)
    ensures
        p@ == "resources/simulations/"@ + name@ + "/simulation.json"@,
{
    simulation_dir(name).concat("/simulation.json")
}

/// The copy of the default settings that a new simulation's settings are
/// made from.
pub fn default_settings_source_path() -> (p: String)
    ensures
        p@ == "resources/"@ + "/default_settings.json"@,
{
    "resources/".to_owned().concat("/default_settings.json")
}

/// Where a file of the front end lies: the request path under
/// `resources/http`.
pub fn http_file_path(request_path: &str) -> (p: String)
    ensures
        p@ == "resources/http"@ + request_path@,
{
    "resources/http".to_owned().concat(request_path)
}

/// The page served for a directory of the front end.
pub fn index_file_path(dir_path: &str) -> (p: String)
    ensures
        p@ == dir_path@ + "/index.html"@,
{
    dir_path.to_owned().concat("/index.html")
}

} // verus!
