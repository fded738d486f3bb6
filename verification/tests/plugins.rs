use boucle::builtin_plugins::{create_builtin_plugins, LinearIssuesPlugin, SystemStatusPlugin};
use boucle::config::{AgentConfig, Config, LoopConfig, MemoryConfig, ScheduleConfig};
use boucle::plugins::{
    ContextPlugin, PluginContext, PluginError, PluginMeta, PluginMetaBuilder, PluginRegistry,
    PluginResult,
};

struct TestPlugin {
    meta: PluginMeta,
    initialized: bool,
}

impl TestPlugin {
    fn new(name: &str) -> Self {
        Self {
            meta: PluginMetaBuilder::new(name)
                .description("Test plugin")
                .priority(50)
                .build(),
            initialized: false,
        }
    }

    fn with_priority(name: &str, priority: i32) -> Self {
        Self {
            meta: PluginMetaBuilder::new(name).priority(priority).build(),
            initialized: false,
        }
    }
}

impl ContextPlugin for TestPlugin {
    fn described(&self) -> PluginMeta {
        self.meta.clone()
    }

    fn meta(&self) -> &PluginMeta {
        &self.meta
    }

    fn initialize(&mut self, _context: &PluginContext) -> Result<(), PluginError> {
        if self.meta.name == "broken" {
            return Err(PluginError::InitializationFailed("broken".to_string()));
        }
        self.initialized = true;
        Ok(())
    }

    fn execute(&self, _context: &PluginContext) -> Result<PluginResult, PluginError> {
        Ok(PluginResult {
            content: format!("Output from {}", self.meta.name),
            warnings: vec![],
            metadata: Vec::new(),
        })
    }

    fn should_run(&self, _context: &PluginContext) -> bool {
        self.initialized
    }
}

fn test_config() -> Config {
    Config {
        agent: AgentConfig {
            name: "test-agent".to_string(),
            model: "default".to_string(),
            system_prompt: "system-prompt.md".to_string(),
            allowed_tools: None,
        },
        memory: MemoryConfig::default(),
        loop_config: LoopConfig::default(),
        schedule: ScheduleConfig::default(),
    }
}

#[test]
fn test_plugin_registry() {
    let mut registry = PluginRegistry::new();
    let plugin = TestPlugin::new("test");

    registry.register(plugin);
    assert_eq!(registry.plugin_names(), vec!["test"]);
}

#[test]
fn test_plugin_execution() {
    let cfg = test_config();

    let mut registry = PluginRegistry::new();
    let plugin = TestPlugin::new("test");

    registry.register(plugin);

    let context = PluginContext {
        root: "/tmp/agent",
        config: &cfg,
        iteration: 1,
        data: Vec::new(),
    };

    registry.initialize(&context).unwrap();
    let results = registry.execute_all(&context).unwrap();

    assert_eq!(results.len(), 1);
    assert_eq!(results[0].0, "test");
    assert!(results[0].1.content.contains("Output from test"));
}

#[test]
fn registry_sorts_by_priority_and_keeps_ties_in_order() {
    let cfg = test_config();
    let context = PluginContext { root: "/", config: &cfg, iteration: 1, data: Vec::new() };
    let mut registry = PluginRegistry::new();
    registry.register(TestPlugin::with_priority("late", 90));
    registry.register(TestPlugin::with_priority("first-of-two", 50));
    registry.register(TestPlugin::with_priority("early", 10));
    registry.register(TestPlugin::with_priority("second-of-two", 50));
    assert!(matches!(
        registry.execute_all(&context),
        Err(PluginError::InitializationFailed(ref m)) if m == "Registry not initialized"
    ));
    registry.initialize(&context).unwrap();
    assert_eq!(
        registry.plugin_names(),
        vec!["early", "first-of-two", "second-of-two", "late"]
    );
    // a second call changes nothing
    registry.register(TestPlugin::with_priority("added-later", 1));
    registry.initialize(&context).unwrap();
    assert_eq!(registry.plugin_names().last(), Some(&"added-later"));
    let results = registry.execute_all(&context).unwrap();
    let names: Vec<&str> = results.iter().map(|r| r.0.as_str()).collect();
    assert_eq!(names, vec!["early", "first-of-two", "second-of-two", "late"]);
    registry.cleanup().unwrap();
    assert!(registry.execute_all(&context).is_err());
}

#[test]
fn registry_stops_at_the_first_failure() {
    let cfg = test_config();
    let context = PluginContext { root: "/", config: &cfg, iteration: 1, data: Vec::new() };
    let mut registry = PluginRegistry::new();
    registry.register(TestPlugin::with_priority("fine", 20));
    registry.register(TestPlugin::with_priority("broken", 10));
    assert!(matches!(
        registry.initialize(&context),
        Err(PluginError::InitializationFailed(ref m)) if m == "broken"
    ));
    assert_eq!(registry.plugin_names(), vec!["broken", "fine"]);
    assert!(registry.execute_all(&context).is_err());
}

#[test]
fn test_plugin_meta_builder() {
    let meta = PluginMetaBuilder::new("example")
        .description("An example plugin")
        .version("2.0.0")
        .external(true)
        .priority(25)
        .build();

    assert_eq!(meta.name, "example");
    assert_eq!(meta.description, "An example plugin");
    assert_eq!(meta.version, "2.0.0");
    assert_eq!(meta.is_external, true);
    assert_eq!(meta.priority, 25);
}

#[test]
fn test_create_builtin_plugins() {
    let plugins = create_builtin_plugins();
    assert_eq!(plugins.len(), 2);

    let names: Vec<&str> = plugins.iter().map(|p| p.meta().name.as_str()).collect();
    assert!(names.contains(&"linear-issues"));
    assert!(names.contains(&"system-status"));
}

#[test]
fn builder_defaults() {
    let meta = PluginMetaBuilder::new("plain").build();
    assert_eq!(meta.name, "plain");
    assert_eq!(meta.description, "");
    assert_eq!(meta.version, "1.0.0");
    assert!(!meta.is_external);
    assert_eq!(meta.priority, 100);
}

#[test]
fn builtin_plugin_descriptions() {
    let linear = LinearIssuesPlugin::new();
    assert_eq!(linear.meta().name, "linear-issues");
    assert!(linear.meta().is_external);
    assert_eq!(linear.meta().priority, 10);
    let status = SystemStatusPlugin::new();
    assert_eq!(status.meta().name, "system-status");
    assert!(!status.meta().is_external);
    assert_eq!(status.meta().priority, 90);
}

#[test]
fn plugin_error_messages() {
    assert_eq!(
        PluginError::ExecutionFailed("boom".to_string()).message(),
        "Plugin execution failed: boom"
    );
    assert_eq!(
        PluginError::InitializationFailed("x".to_string()).message(),
        "Plugin initialization failed: x"
    );
    assert_eq!(
        PluginError::DependencyNotFound("y".to_string()).message(),
        "Plugin dependency not found: y"
    );
    assert_eq!(
        PluginError::InvalidConfiguration("z".to_string()).message(),
        "Plugin configuration invalid: z"
    );
}

#[test]
fn an_empty_registry_runs_nothing_and_succeeds() {
    let cfg = test_config();
    let context = PluginContext { root: "/", config: &cfg, iteration: 1, data: Vec::new() };
    let mut registry: PluginRegistry<TestPlugin> = PluginRegistry::new();
    registry.initialize(&context).unwrap();
    let results = registry.execute_all(&context).unwrap();
    assert!(results.is_empty());
    registry.cleanup().unwrap();
}

#[test]
fn a_plugin_is_registered_under_the_name_it_gives() {
    let mut registry = PluginRegistry::new();
    registry.register(TestPlugin::new("one"));
    registry.register(TestPlugin::with_priority("two", 7));
    assert_eq!(registry.plugin_names(), vec!["one", "two"]);
    let plugin = TestPlugin::with_priority("three", 3);
    assert_eq!(plugin.described().name, plugin.meta().name);
    assert_eq!(plugin.described().priority, 3);
    registry.register(plugin);
    assert_eq!(registry.plugin_names(), vec!["one", "two", "three"]);
}
